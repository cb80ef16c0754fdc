use vstd::prelude::*;
use vstd::arithmetic::div_mod::lemma_fundamental_div_mod_converse;
use crate::fixed::{ONE, TerrainError};
use crate::fractal::{MAX_FREQUENCY, frequency, normalized_height, weighted_sum, octave_frequency, weighted_sum_of, height_of_sum, lemma_frequency_grows};
use crate::palette::{Rgb, terrain_rgb, terrain_color};

verus! {

/// The largest accepted scale, in millionths.
pub const MAX_SCALE: u64 = 0x1_0000_0000;

/// The parameters of one synthesis. `scale`, `persistence` and
/// `lacunarity` are fixed-point numbers in millionths. `pixel_size` is
/// carried for the caller: synthesis always quantises colours at one level.
#[derive(Clone, Copy, Debug, PartialEq, Eq, Structural)]
pub struct TerrainConfig {
    pub width: u32,
    pub height: u32,
    pub scale: u64,
    pub octaves: u32,
    pub persistence: u64,
    pub lacunarity: u64,
    pub pixel_size: u32,
}

impl TerrainConfig {
    /// Persistence in `[0, 1]`, lacunarity at least one, and the scale and
    /// the frequency of the last octave small enough for exact arithmetic.
    pub open spec fn is_valid(&self) -> bool {
        &&& self.persistence <= ONE
        &&& self.lacunarity >= ONE
        &&& self.scale <= MAX_SCALE
        &&& (self.octaves == 0 || frequency(self.lacunarity as int, (self.octaves - 1) as nat) <= MAX_FREQUENCY)
    }
}

/// Checks a configuration before any work is done.
pub fn validate(cfg: &TerrainConfig) -> (r: Result<(), TerrainError>)
    ensures
        r is Ok <==> cfg.is_valid(),
        r is Err ==> r == Err::<(), TerrainError>(TerrainError::InvalidConfiguration),
{
    if cfg.persistence > ONE || cfg.lacunarity < ONE || cfg.scale > MAX_SCALE {
        return Err(TerrainError::InvalidConfiguration);
    }
    if cfg.octaves == 0 {
        return Ok(());
    }
    let last: u32 = cfg.octaves - 1;
    let l = cfg.lacunarity;
    let mut f: u128 = ONE as u128;
    let mut i: u32 = 0;
    while i < last
        invariant
            i <= last,
            last == cfg.octaves - 1,
            l == cfg.lacunarity,
            l >= ONE,
            f == frequency(l as int, i as nat),
            f <= MAX_FREQUENCY,
        decreases last - i,
    {
        proof {
            assert(f * l <= 0x100_0000_0000 * 0x1_0000_0000_0000_0000) by (nonlinear_arith)
                requires
                    f <= 0x100_0000_0000,
                    l < 0x1_0000_0000_0000_0000,
            ;
        }
        f = f * (l as u128) / (ONE as u128);
        i = i + 1;
        if f > MAX_FREQUENCY as u128 {
            proof {
                lemma_frequency_grows(l as int, i as nat, last as nat);
            }
            return Err(TerrainError::InvalidConfiguration);
        }
    }
    Ok(())
}

/// The sample coordinate, in millionths, of grid position `i` out of
/// `extent` at frequency `f` and scale `s`: `(i / extent - 1/2) * f * s`,
/// rounded toward zero.
pub open spec fn sample_coord(i: int, extent: int, f: int, s: int) -> int {
    let n = (2 * i - extent) * f * s;
    let d = 2 * extent * (ONE as int);
    if n >= 0 {
        n / d
    } else {
        -((-n) / d)
    }
}

/// The noise coordinates that pixel `(x, y)` samples at octave `k`.
pub open spec fn sample_at(cfg: TerrainConfig, x: int, y: int, k: nat) -> (int, int) {
    let f = frequency(cfg.lacunarity as int, k);
    (sample_coord(x, cfg.width as int, f, cfg.scale as int), sample_coord(y, cfg.height as int, f, cfg.scale as int))
}

/// Entry `j` of the sample grid: pixel `j / octaves` in row-major order,
/// octave `j % octaves`.
pub open spec fn grid_point(cfg: TerrainConfig, j: int) -> (int, int) {
    let o = cfg.octaves as int;
    let pixel = j / o;
    sample_at(cfg, pixel % (cfg.width as int), pixel / (cfg.width as int), (j % o) as nat)
}

fn coordinate(i: u32, extent: u32, f: u64, s: u64) -> (c: i128)
    requires
        i < extent,
        f <= MAX_FREQUENCY,
        s <= MAX_SCALE,
    ensures
        c == sample_coord(i as int, extent as int, f as int, s as int),
{
    let d: u128 = 2 * (extent as u128) * 1_000_000u128;
    assert(d == 2 * extent * ONE);
    if 2 * (i as u64) >= extent as u64 {
        let a: u128 = (2 * (i as u64) - extent as u64) as u128;
        proof {
            assert(a * f <= 0x2_0000_0000 * 0x100_0000_0000) by (nonlinear_arith)
                requires
                    a <= 0x2_0000_0000,
                    f <= 0x100_0000_0000,
            ;
            assert(a * f * s <= 0x2_0000_0000 * 0x100_0000_0000 * 0x1_0000_0000) by (nonlinear_arith)
                requires
                    a <= 0x2_0000_0000,
                    f <= 0x100_0000_0000,
                    s <= 0x1_0000_0000,
            ;
        }
        let m: u128 = a * (f as u128) * (s as u128);
        proof {
            assert(m / d <= m) by (nonlinear_arith)
                requires
                    d >= 1,
            ;
        }
        (m / d) as i128
    } else {
        let a: u128 = (extent as u64 - 2 * (i as u64)) as u128;
        proof {
            assert(a * f <= 0x2_0000_0000 * 0x100_0000_0000) by (nonlinear_arith)
                requires
                    a <= 0x2_0000_0000,
                    f <= 0x100_0000_0000,
            ;
            assert(a * f * s <= 0x2_0000_0000 * 0x100_0000_0000 * 0x1_0000_0000) by (nonlinear_arith)
                requires
                    a <= 0x2_0000_0000,
                    f <= 0x100_0000_0000,
                    s <= 0x1_0000_0000,
            ;
            assert((2 * i - extent) * f * s == -(a * f * s)) by (nonlinear_arith)
                requires
                    a == extent - 2 * i,
            ;
        }
        let m: u128 = a * (f as u128) * (s as u128);
        proof {
            assert(m / d <= m) by (nonlinear_arith)
                requires
                    d >= 1,
            ;
            if m == 0 {
                assert(0int / (d as int) == 0);
            }
        }
        -((m / d) as i128)
    }
}

/// The noise coordinates, in millionths, that pixel `(x, y)` samples at
/// octave `k`.
pub fn sample_point(cfg: &TerrainConfig, x: u32, y: u32, k: u32) -> (p: (i128, i128))
    requires
        cfg.is_valid(),
        x < cfg.width,
        y < cfg.height,
        k < cfg.octaves,
    ensures
        p.0 == sample_at(*cfg, x as int, y as int, k as nat).0,
        p.1 == sample_at(*cfg, x as int, y as int, k as nat).1,
{
    proof {
        lemma_frequency_grows(cfg.lacunarity as int, k as nat, (cfg.octaves - 1) as nat);
    }
    let f = octave_frequency(cfg.lacunarity, k);
    (coordinate(x, cfg.width, f, cfg.scale), coordinate(y, cfg.height, f, cfg.scale))
}

/// Entry `(y * width + x) * octaves + k` of the grid is pixel `(x, y)` at
/// octave `k`.
proof fn lemma_grid_point(cfg: TerrainConfig, x: int, y: int, k: int)
    requires
        0 <= x < cfg.width,
        0 <= y,
        0 <= k < cfg.octaves,
    ensures
        grid_point(cfg, (y * cfg.width + x) * cfg.octaves + k) == sample_at(cfg, x, y, k as nat),
{
    let w = cfg.width as int;
    let o = cfg.octaves as int;
    let pixel = y * w + x;
    assert(pixel >= 0) by (nonlinear_arith)
        requires
            y >= 0,
            w >= 0,
            x >= 0,
            pixel == y * w + x,
    ;
    lemma_fundamental_div_mod_converse(pixel * o + k, o, pixel, k);
    lemma_fundamental_div_mod_converse(pixel, w, y, x);
}

/// The noise coordinates of every sample that synthesis takes, pixel by
/// pixel in row-major order and octave by octave within each pixel.
pub fn sample_grid(cfg: &TerrainConfig) -> (g: Vec<(i128, i128)>)
    requires
        cfg.is_valid(),
        cfg.width * cfg.height * cfg.octaves <= usize::MAX,
    ensures
        g@.len() == cfg.width * cfg.height * cfg.octaves,
        forall|j: int| 0 <= j < g@.len() ==> {
            let p = #[trigger] grid_point(*cfg, j);
            g@[j].0 == p.0 && g@[j].1 == p.1
        },
{
    let ghost w = cfg.width as int;
    let ghost o = cfg.octaves as int;
    let mut g: Vec<(i128, i128)> = Vec::new();
    let mut y: u32 = 0;
    assert(0 * w * o == 0) by (nonlinear_arith);
    while y < cfg.height
        invariant
            y <= cfg.height,
            cfg.is_valid(),
            w == cfg.width,
            o == cfg.octaves,
            g@.len() == y * w * o,
            forall|j: int| 0 <= j < g@.len() ==> {
                let p = #[trigger] grid_point(*cfg, j);
                g@[j].0 == p.0 && g@[j].1 == p.1
            },
        decreases cfg.height - y,
    {
        let mut x: u32 = 0;
        while x < cfg.width
            invariant
                x <= cfg.width,
                y < cfg.height,
                cfg.is_valid(),
                w == cfg.width,
                o == cfg.octaves,
                g@.len() == (y * w + x) * o,
                forall|j: int| 0 <= j < g@.len() ==> {
                    let p = #[trigger] grid_point(*cfg, j);
                    g@[j].0 == p.0 && g@[j].1 == p.1
                },
            decreases cfg.width - x,
        {
            let mut k: u32 = 0;
            while k < cfg.octaves
                invariant
                    k <= cfg.octaves,
                    x < cfg.width,
                    y < cfg.height,
                    cfg.is_valid(),
                    w == cfg.width,
                    o == cfg.octaves,
                    g@.len() == (y * w + x) * o + k,
                    forall|j: int| 0 <= j < g@.len() ==> {
                        let p = #[trigger] grid_point(*cfg, j);
                        g@[j].0 == p.0 && g@[j].1 == p.1
                    },
                decreases cfg.octaves - k,
            {
                let p = sample_point(cfg, x, y, k);
                proof {
                    lemma_grid_point(*cfg, x as int, y as int, k as int);
                }
                g.push(p);
                k = k + 1;
            }
            proof {
                assert((y * w + x) * o + o == (y * w + (x + 1)) * o) by (nonlinear_arith);
            }
            x = x + 1;
        }
        proof {
            assert((y * w + w) * o == (y + 1) * w * o) by (nonlinear_arith);
        }
        y = y + 1;
    }
    proof {
        assert(cfg.height * w * o == cfg.width * cfg.height * cfg.octaves) by (nonlinear_arith)
            requires
                w == cfg.width,
                o == cfg.octaves,
        ;
    }
    g
}

/// An image of `width` by `height` pixels, four bytes each (red, green,
/// blue, alpha), in row-major order.
pub struct PixelBuffer {
    pub width: u32,
    pub height: u32,
    pub pixels: Vec<u8>,
}

/// The normalised height of pixel `i`, whose samples are the `octaves`
/// entries of `samples` from `i * octaves` on.
pub open spec fn pixel_height(cfg: TerrainConfig, samples: Seq<i64>, i: int) -> int {
    let o = cfg.octaves as int;
    normalized_height(weighted_sum(samples.subrange(i * o, i * o + o), cfg.persistence as int))
}

/// The four bytes of pixel `i` in `bytes` hold its terrain colour and full
/// opacity.
pub open spec fn pixel_holds(bytes: Seq<u8>, cfg: TerrainConfig, samples: Seq<i64>, i: int) -> bool {
    let c = terrain_rgb(pixel_height(cfg, samples, i));
    &&& bytes[4 * i] == c.r
    &&& bytes[4 * i + 1] == c.g
    &&& bytes[4 * i + 2] == c.b
    &&& bytes[4 * i + 3] == 255
}

impl PixelBuffer {
    /// The buffer is the image of `cfg` for the noise samples `samples`.
    pub open spec fn renders(&self, cfg: TerrainConfig, samples: Seq<i64>) -> bool {
        &&& self.width == cfg.width
        &&& self.height == cfg.height
        &&& self.pixels@.len() == 4 * cfg.width * cfg.height
        &&& forall|i: int| 0 <= i < cfg.width * cfg.height ==> #[trigger] pixel_holds(self.pixels@, cfg, samples, i)
    }
}

/// Builds the image of `cfg` from its noise samples, laid out as
/// `sample_grid` lists their coordinates.
pub fn synthesize(cfg: &TerrainConfig, samples: &Vec<i64>) -> (buf: PixelBuffer)
    requires
        cfg.persistence <= ONE,
        samples@.len() == cfg.width * cfg.height * cfg.octaves,
        4 * cfg.width * cfg.height <= usize::MAX,
    ensures
        buf.renders(*cfg, samples@),
        buf.width == cfg.width,
        buf.height == cfg.height,
        cfg.width == 0 || cfg.height == 0 ==> buf.pixels@.len() == 0,
{
    assert(cfg.width * cfg.height <= 4 * cfg.width * cfg.height) by (nonlinear_arith);
    let n: usize = (cfg.width as usize) * (cfg.height as usize);
    assert(samples@.len() == n * cfg.octaves) by (nonlinear_arith)
        requires
            n == cfg.width * cfg.height,
            samples@.len() == cfg.width * cfg.height * cfg.octaves,
    ;
    let o = cfg.octaves;
    let total = samples.len();
    assert(4 * n == 4 * cfg.width * cfg.height) by (nonlinear_arith)
        requires
            n == cfg.width * cfg.height,
    ;
    let mut pixels: Vec<u8> = Vec::new();
    let mut i: usize = 0;
    while i < n
        invariant
            i <= n,
            n == cfg.width * cfg.height,
            o == cfg.octaves,
            cfg.persistence <= ONE,
            samples@.len() == n * o,
            total == samples@.len(),
            4 * n <= usize::MAX,
            4 * n == 4 * cfg.width * cfg.height,
            pixels@.len() == 4 * i,
            forall|q: int| 0 <= q < i ==> #[trigger] pixel_holds(pixels@, *cfg, samples@, q),
        decreases n - i,
    {
        proof {
            assert((i + 1) * o <= n * o) by (nonlinear_arith)
                requires
                    i < n,
                    o >= 0,
            ;
            assert(i * o + o == (i + 1) * o) by (nonlinear_arith);
        }
        assert(i * o <= n * o) by (nonlinear_arith)
            requires
                i < n,
                o >= 0,
        ;
        let start: usize = i * (o as usize);
        let t = weighted_sum_of(samples, start, o, cfg.persistence);
        let c: Rgb = terrain_color(height_of_sum(t, o));
        let ghost before = pixels@;
        pixels.push(c.r);
        pixels.push(c.g);
        pixels.push(c.b);
        pixels.push(255u8);
        proof {
            assert forall|q: int| 0 <= q < i + 1 implies #[trigger] pixel_holds(pixels@, *cfg, samples@, q) by {
                if q < i {
                    assert(pixel_holds(before, *cfg, samples@, q));
                }
            }
        }
        i = i + 1;
    }
    assert(cfg.width == 0 || cfg.height == 0 ==> 4 * cfg.width * cfg.height == 0) by (nonlinear_arith);
    PixelBuffer { width: cfg.width, height: cfg.height, pixels }
}

/// Synthesis is a function of its inputs: two buffers that both render the
/// same configuration from the same samples are identical.
pub proof fn lemma_synthesis_deterministic(cfg: TerrainConfig, samples: Seq<i64>, a: PixelBuffer, b: PixelBuffer)
    requires
        a.renders(cfg, samples),
        b.renders(cfg, samples),
    ensures
        a.width == b.width,
        a.height == b.height,
        a.pixels@ == b.pixels@,
{
    assert forall|j: int| 0 <= j < a.pixels@.len() implies a.pixels@[j] == b.pixels@[j] by {
        let i = j / 4;
        lemma_fundamental_div_mod_converse(j, 4, i, j % 4);
        assert(0 <= i < cfg.width * cfg.height) by (nonlinear_arith)
            requires
                0 <= j < 4 * cfg.width * cfg.height,
                j == 4 * i + j % 4,
                0 <= j % 4 < 4,
        ;
        assert(pixel_holds(a.pixels@, cfg, samples, i));
        assert(pixel_holds(b.pixels@, cfg, samples, i));
    }
    assert(a.pixels@ =~= b.pixels@);
}

} // verus!
