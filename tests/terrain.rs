use noise::{NoiseFn, Perlin};
use terrain_generator::fixed::{TerrainError, ONE};
use terrain_generator::fractal::{fractal_height, octave_amplitude, octave_frequency};
use terrain_generator::palette::{base_color, classify, quantize_channel, quantize_color, terrain_color, Biome, Rgb};
use terrain_generator::synth::{sample_grid, sample_point, synthesize, validate, PixelBuffer, TerrainConfig};

fn config(width: u32, height: u32, scale: u64, octaves: u32) -> TerrainConfig {
    TerrainConfig {
        width,
        height,
        scale,
        octaves,
        persistence: 500_000,
        lacunarity: 2_000_000,
        pixel_size: 1,
    }
}

fn noise_samples(seed: u32, cfg: &TerrainConfig) -> Vec<i64> {
    let perlin = Perlin::new(seed);
    sample_grid(cfg)
        .iter()
        .map(|&(x, y)| (perlin.get([x as f64 / 1e6, y as f64 / 1e6]) * 1e6).round() as i64)
        .collect()
}

fn generate(seed: u32, cfg: &TerrainConfig) -> PixelBuffer {
    assert_eq!(validate(cfg), Ok(()));
    synthesize(cfg, &noise_samples(seed, cfg))
}

fn rgb(r: u8, g: u8, b: u8) -> Rgb {
    Rgb { r, g, b }
}

#[test]
fn classification_boundaries() {
    let cases: [(i128, Biome, Rgb); 12] = [
        (0, Biome::DeepWater, rgb(0, 0, 255)),
        (290_000, Biome::DeepWater, rgb(0, 0, 255)),
        (300_000, Biome::Water, rgb(65, 105, 225)),
        (390_000, Biome::Water, rgb(65, 105, 225)),
        (400_000, Biome::Sand, rgb(210, 180, 140)),
        (490_000, Biome::Sand, rgb(210, 180, 140)),
        (500_000, Biome::Grass, rgb(34, 139, 34)),
        (690_000, Biome::Grass, rgb(34, 139, 34)),
        (700_000, Biome::Mountain, rgb(139, 69, 19)),
        (790_000, Biome::Mountain, rgb(139, 69, 19)),
        (800_000, Biome::Snow, rgb(255, 255, 255)),
        (1_000_000, Biome::Snow, rgb(255, 255, 255)),
    ];
    for (h, biome, color) in cases {
        assert_eq!(classify(h), biome);
        assert_eq!(base_color(classify(h)), color);
    }
}

#[test]
fn out_of_range_heights_fall_into_extreme_bands() {
    assert_eq!(classify(-250_000), Biome::DeepWater);
    assert_eq!(classify(1_250_000), Biome::Snow);
    assert_eq!(classify(299_999), Biome::DeepWater);
    assert_eq!(classify(799_999), Biome::Mountain);
}

#[test]
fn terrain_colors_are_quantized_at_one_level() {
    assert_eq!(terrain_color(100_000), rgb(0, 0, 255));
    assert_eq!(terrain_color(350_000), rgb(0, 0, 255));
    assert_eq!(terrain_color(450_000), rgb(255, 255, 255));
    assert_eq!(terrain_color(600_000), rgb(0, 255, 0));
    assert_eq!(terrain_color(750_000), rgb(255, 0, 0));
    assert_eq!(terrain_color(900_000), rgb(255, 255, 255));
}

#[test]
fn quantize_single_level_is_binary() {
    for v in 0..=255u8 {
        let q = quantize_channel(v, 1);
        assert!(q == 0 || q == 255);
        assert_eq!(q == 255, v >= 128);
    }
    assert_eq!(quantize_color(rgb(65, 105, 225), 1), Ok(rgb(0, 0, 255)));
    assert_eq!(quantize_color(rgb(139, 69, 19), 1), Ok(rgb(255, 0, 0)));
}

#[test]
fn quantize_exact_values() {
    assert_eq!(quantize_channel(255, 2), 254);
    assert_eq!(quantize_channel(100, 4), 126);
    assert_eq!(quantize_channel(255, 100), 255);
    assert_eq!(quantize_channel(3, 255), 3);
    assert_eq!(quantize_color(rgb(10, 20, 30), 5), Ok(rgb(0, 0, 51)));
}

#[test]
fn quantize_rejects_zero_step() {
    assert_eq!(quantize_color(rgb(1, 2, 3), 0), Err(TerrainError::InvalidConfiguration));
    assert_eq!(quantize_color(rgb(1, 2, 3), 256), Err(TerrainError::InvalidConfiguration));
}

#[test]
fn validate_accepts_and_rejects() {
    assert_eq!(validate(&config(512, 512, 50_000_000, 6)), Ok(()));
    let mut c = config(4, 4, 10_000_000, 1);
    c.persistence = ONE + 1;
    assert_eq!(validate(&c), Err(TerrainError::InvalidConfiguration));
    let mut c = config(4, 4, 10_000_000, 1);
    c.lacunarity = ONE - 1;
    assert_eq!(validate(&c), Err(TerrainError::InvalidConfiguration));
    let c = config(4, 4, 0x1_0000_0001, 1);
    assert_eq!(validate(&c), Err(TerrainError::InvalidConfiguration));
    let mut c = config(4, 4, 10_000_000, 21);
    c.lacunarity = 4_000_000;
    assert_eq!(validate(&c), Err(TerrainError::InvalidConfiguration));
    c.octaves = 8;
    assert_eq!(validate(&c), Ok(()));
}

#[test]
fn validate_bounds_the_last_sampled_frequency() {
    let mut c = config(4, 4, 10_000_000, 11);
    c.lacunarity = 4_000_000;
    assert_eq!(validate(&c), Ok(()));
    c.octaves = 12;
    assert_eq!(validate(&c), Err(TerrainError::InvalidConfiguration));
    c.octaves = 0;
    assert_eq!(validate(&c), Ok(()));
}

#[test]
fn validate_accepts_any_persistence_and_octave_count() {
    let mut c = config(4, 4, 10_000_000, 8);
    c.persistence = 100_000;
    assert_eq!(validate(&c), Ok(()));
    c.persistence = 50_000;
    c.octaves = 7;
    assert_eq!(validate(&c), Ok(()));
    c.persistence = 1;
    assert_eq!(validate(&c), Ok(()));
    c.persistence = 0;
    assert_eq!(validate(&c), Ok(()));
    let buf = generate(9, &c);
    assert_eq!(buf.pixels.len(), 64);
}

#[test]
fn weights_strictly_decrease_while_positive() {
    for p in [1u64, 50_000, 100_000, 300_000, 500_000, 999_999] {
        let mut k = 1u32;
        while k < 60 && octave_amplitude(p, k) > 0 {
            assert!(octave_amplitude(p, k) < octave_amplitude(p, k - 1));
            k += 1;
        }
    }
    assert_eq!(octave_amplitude(50_000, 4), 6);
    assert_eq!(octave_amplitude(50_000, 5), 0);
    assert_eq!(octave_amplitude(100_000, 6), 1);
    assert_eq!(octave_amplitude(100_000, 7), 0);
}

#[test]
fn amplitudes_decay_by_persistence() {
    let expected: [u64; 5] = [1_000_000, 500_000, 250_000, 125_000, 62_500];
    for (k, a) in expected.iter().enumerate() {
        assert_eq!(octave_amplitude(500_000, k as u32), *a);
    }
    for k in 0..10u32 {
        assert!(octave_amplitude(700_000, k + 1) < octave_amplitude(700_000, k));
    }
    assert_eq!(octave_amplitude(0, 1), 0);
    assert_eq!(octave_amplitude(ONE, 7), ONE);
}

#[test]
fn frequencies_grow_by_lacunarity() {
    assert_eq!(octave_frequency(2_000_000, 0), 1_000_000);
    assert_eq!(octave_frequency(2_000_000, 3), 8_000_000);
    assert_eq!(octave_frequency(1_500_000, 2), 2_250_000);
}

#[test]
fn sample_points_are_centred_and_scaled() {
    let cfg = config(4, 4, 10_000_000, 2);
    assert_eq!(sample_point(&cfg, 0, 0, 0), (-5_000_000, -5_000_000));
    assert_eq!(sample_point(&cfg, 1, 3, 0), (-2_500_000, 2_500_000));
    assert_eq!(sample_point(&cfg, 2, 0, 0), (0, -5_000_000));
    assert_eq!(sample_point(&cfg, 3, 1, 1), (5_000_000, -5_000_000));
    let odd = config(3, 3, 1_000_000, 1);
    assert_eq!(sample_point(&odd, 0, 2, 0), (-500_000, 166_666));
}

#[test]
fn sample_grid_is_row_major_by_octave() {
    let cfg = config(3, 2, 10_000_000, 2);
    let grid = sample_grid(&cfg);
    assert_eq!(grid.len(), 12);
    for y in 0..2u32 {
        for x in 0..3u32 {
            for k in 0..2u32 {
                let j = ((y * 3 + x) * 2 + k) as usize;
                assert_eq!(grid[j], sample_point(&cfg, x, y, k));
            }
        }
    }
}

#[test]
fn fractal_height_normalizes() {
    assert_eq!(fractal_height(&vec![1_000_000], 500_000), 1_000_000);
    assert_eq!(fractal_height(&vec![-1_000_000], 500_000), 0);
    assert_eq!(fractal_height(&vec![0], 500_000), 500_000);
    assert_eq!(fractal_height(&vec![], 500_000), 500_000);
    assert_eq!(fractal_height(&vec![1_000_000, 1_000_000], 500_000), 1_250_000);
    assert_eq!(fractal_height(&vec![-1_000_000, -1_000_000], 500_000), -250_000);
    assert_eq!(fractal_height(&vec![-1_000_001], 500_000), -1);
    assert_eq!(fractal_height(&vec![200_000, 400_000, -800_000], 500_000), 600_000);
}

#[test]
fn synthesize_from_given_samples() {
    let cfg = config(3, 1, 10_000_000, 1);
    let buf = synthesize(&cfg, &vec![-1_000_000, 0, 1_000_000]);
    assert_eq!(buf.width, 3);
    assert_eq!(buf.height, 1);
    assert_eq!(buf.pixels, vec![0, 0, 255, 255, 0, 255, 0, 255, 255, 255, 255, 255]);
}

#[test]
fn empty_buffer_for_zero_dimensions() {
    let buf = generate(7, &config(0, 5, 10_000_000, 3));
    assert_eq!((buf.width, buf.height, buf.pixels.len()), (0, 5, 0));
    let buf = generate(7, &config(5, 0, 10_000_000, 3));
    assert_eq!((buf.width, buf.height, buf.pixels.len()), (5, 0, 0));
}

#[test]
fn dimensions_follow_config() {
    for (w, h) in [(1u32, 1u32), (7, 3), (16, 9)] {
        let buf = generate(3, &config(w, h, 25_000_000, 4));
        assert_eq!(buf.width, w);
        assert_eq!(buf.height, h);
        assert_eq!(buf.pixels.len(), (4 * w * h) as usize);
    }
}

#[test]
fn synthesis_is_deterministic() {
    let cfg = config(32, 24, 50_000_000, 6);
    let a = generate(1234, &cfg);
    let b = generate(1234, &cfg);
    assert_eq!(a.pixels, b.pixels);
    assert_eq!((a.width, a.height), (b.width, b.height));
}

#[test]
fn different_seeds_differ() {
    let cfg = config(64, 64, 10_000_000, 4);
    for (s1, s2) in [(1u32, 2u32), (42, 43), (7, 1000)] {
        assert_ne!(generate(s1, &cfg).pixels, generate(s2, &cfg).pixels);
    }
}

#[test]
fn noise_field_is_smooth() {
    let perlin = Perlin::new(42);
    let eps = 1e-6;
    for i in 0..200 {
        let x = i as f64 * 0.173 - 17.0;
        let y = i as f64 * 0.291 - 29.0;
        let v = perlin.get([x, y]);
        assert!((perlin.get([x + eps, y]) - v).abs() < 1e-4);
        assert!((perlin.get([x, y + eps]) - v).abs() < 1e-4);
    }
}

#[test]
fn end_to_end_scenario() {
    let cfg = config(4, 4, 10_000_000, 1);
    let buf = generate(42, &cfg);
    assert_eq!((buf.width, buf.height), (4, 4));
    assert_eq!(buf.pixels.len(), 64);
    let palette = [(0, 0, 255), (255, 255, 255), (0, 255, 0), (255, 0, 0)];
    for px in buf.pixels.chunks(4) {
        assert_eq!(px[3], 255);
        assert!(palette.contains(&(px[0], px[1], px[2])));
    }
}
