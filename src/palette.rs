use vstd::prelude::*;

verus! {

/// An opaque colour, one byte per channel.
#[derive(Clone, Copy, Debug, PartialEq, Eq, Structural)]
pub struct Rgb {
    pub r: u8,
    pub g: u8,
    pub b: u8,
}

/// The height bands of the terrain, lowest first.
#[derive(Clone, Copy, Debug, PartialEq, Eq, Structural)]
pub enum Biome {
    DeepWater,
    Water,
    Sand,
    Grass,
    Mountain,
    Snow,
}

/// The band of a normalised height given in millionths. Every bound is
/// exclusive, and anything from 0.8 up is snow.
pub open spec fn biome_of(h: int) -> Biome {
    if h < 300_000 {
        Biome::DeepWater
    } else if h < 400_000 {
        Biome::Water
    } else if h < 500_000 {
        Biome::Sand
    } else if h < 700_000 {
        Biome::Grass
    } else if h < 800_000 {
        Biome::Mountain
    } else {
        Biome::Snow
    }
}

/// The display colour of each band before quantisation.
pub open spec fn palette(b: Biome) -> Rgb {
    match b {
        Biome::DeepWater => Rgb { r: 0, g: 0, b: 255 },
        Biome::Water => Rgb { r: 65, g: 105, b: 225 },
        Biome::Sand => Rgb { r: 210, g: 180, b: 140 },
        Biome::Grass => Rgb { r: 34, g: 139, b: 34 },
        Biome::Mountain => Rgb { r: 139, g: 69, b: 19 },
        Biome::Snow => Rgb { r: 255, g: 255, b: 255 },
    }
}

/// A channel reduced to `q` levels: with `step = 255 / q`, the channel over
/// `step` rounded half up, times `step`, capped at 255.
pub open spec fn quantize_level(v: int, q: int) -> int {
    let step = 255int / q;
    let level = (2 * v + step) / (2 * step);
    if level * step > 255 {
        255
    } else {
        level * step
    }
}

pub open spec fn quantize_rgb(c: Rgb, q: int) -> Rgb {
    Rgb {
        r: quantize_level(c.r as int, q) as u8,
        g: quantize_level(c.g as int, q) as u8,
        b: quantize_level(c.b as int, q) as u8,
    }
}

/// The colour drawn for a normalised height: the band's colour at one
/// quantisation level.
pub open spec fn terrain_rgb(h: int) -> Rgb {
    quantize_rgb(palette(biome_of(h)), 1)
}

/// Classifies a normalised height, in millionths, into its band.
pub fn classify(h: i128) -> (b: Biome)
    ensures
        b == biome_of(h as int),
{
    if h < 300_000 {
        Biome::DeepWater
    } else if h < 400_000 {
        Biome::Water
    } else if h < 500_000 {
        Biome::Sand
    } else if h < 700_000 {
        Biome::Grass
    } else if h < 800_000 {
        Biome::Mountain
    } else {
        Biome::Snow
    }
}

/// The fixed colour of a band.
pub fn base_color(b: Biome) -> (c: Rgb)
    ensures
        c == palette(b),
{
    match b {
        Biome::DeepWater => Rgb { r: 0, g: 0, b: 255 },
        Biome::Water => Rgb { r: 65, g: 105, b: 225 },
        Biome::Sand => Rgb { r: 210, g: 180, b: 140 },
        Biome::Grass => Rgb { r: 34, g: 139, b: 34 },
        Biome::Mountain => Rgb { r: 139, g: 69, b: 19 },
        Biome::Snow => Rgb { r: 255, g: 255, b: 255 },
    }
}

/// Reduces one channel to `q` levels.
pub fn quantize_channel(v: u8, q: u32) -> (r: u8)
    requires
        1 <= q <= 255,
    ensures
        r as int == quantize_level(v as int, q as int),
        0 <= quantize_level(v as int, q as int) <= 255,
{
    let step: u32 = 255 / q;
    assert(1 <= step <= 255) by (nonlinear_arith)
        requires
            1 <= q <= 255,
            step == 255u32 / q,
    ;
    let level: u32 = (2 * (v as u32) + step) / (2 * step);
    assert(level <= 510) by (nonlinear_arith)
        requires
            1 <= step <= 255,
            v <= 255,
            level == (2 * v + step) / (2 * step),
    ;
    assert(0 <= level * step <= 510 * 255) by (nonlinear_arith)
        requires
            1 <= step <= 255,
            level <= 510,
    ;
    let scaled: u32 = level * step;
    if scaled > 255 {
        255
    } else {
        scaled as u8
    }
}

/// Reduces each channel of a colour to `q` levels; `q` must give a
/// positive step, that is lie in `1..=255`.
pub fn quantize_color(c: Rgb, q: u32) -> (r: Result<Rgb, crate::fixed::TerrainError>)
    ensures
        match r {
            Ok(x) => 1 <= q <= 255 && x == quantize_rgb(c, q as int),
            Err(e) => (q == 0 || q > 255) && e == crate::fixed::TerrainError::InvalidConfiguration,
        },
{
    if q == 0 || q > 255 {
        return Err(crate::fixed::TerrainError::InvalidConfiguration);
    }
    let r = quantize_channel(c.r, q);
    let g = quantize_channel(c.g, q);
    let b = quantize_channel(c.b, q);
    Ok(Rgb { r, g, b })
}

/// The colour drawn for a normalised height in millionths.
pub fn terrain_color(h: i128) -> (c: Rgb)
    ensures
        c == terrain_rgb(h as int),
{
    let base = base_color(classify(h));
    Rgb { r: quantize_channel(base.r, 1), g: quantize_channel(base.g, 1), b: quantize_channel(base.b, 1) }
}

/// At one level every channel lands on either end of the byte range.
pub proof fn lemma_single_level_is_binary(v: u8)
    ensures
        quantize_level(v as int, 1) == 0 || quantize_level(v as int, 1) == 255,
        quantize_level(v as int, 1) == 255 <==> v >= 128,
{
    assert(255int / 1 == 255);
    let level = (2 * v + 255) / (2 * 255int);
    if v >= 128 {
        assert(level == 1);
    } else {
        assert(level == 0);
    }
}

} // verus!
