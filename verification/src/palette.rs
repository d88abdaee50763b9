//! The 240 fixed colours of the 8-bit palette, indices 16 to 255: a cube of
//! six levels per channel and a ramp of 24 greys. The first 16 indices are
//! left out, since terminals let their users redefine them.

use crate::color::Rgb;
use vstd::prelude::*;

verus! {

/// Lowest index of the colour cube.
pub const CUBE_START: u8 = 16;

/// Lowest index of the grey ramp.
pub const GREY_START: u8 = 232;

/// Intensity of level `k` of the colour cube: 0, 95, 135, 175, 215, 255.
pub open spec fn level(k: int) -> int {
    if k == 0 {
        0
    } else {
        55 + 40 * k
    }
}

/// The colour that palette index `index` is defined as.
pub open spec fn palette_color(index: int) -> Rgb
    recommends
        CUBE_START <= index <= 255,
{
    if index < GREY_START {
        let cell = index - CUBE_START;
        Rgb {
            r: level(cell / 36) as u8,
            g: level((cell / 6) % 6) as u8,
            b: level(cell % 6) as u8,
        }
    } else {
        let grey = (8 + 10 * (index - GREY_START)) as u8;
        Rgb { r: grey, g: grey, b: grey }
    }
}

/// The squared Euclidean distance of two colours in channel space.
pub open spec fn distance(a: Rgb, b: Rgb) -> int {
    (a.r - b.r) * (a.r - b.r) + (a.g - b.g) * (a.g - b.g) + (a.b - b.b) * (a.b - b.b)
}

/// `index` is the palette index nearest to `rgb`: no palette colour is
/// nearer, and every lower index is farther away.
pub open spec fn is_nearest(rgb: Rgb, index: int) -> bool {
    &&& CUBE_START <= index <= 255
    &&& forall|other: int|
        CUBE_START <= other <= 255 ==> distance(rgb, palette_color(index)) <= #[trigger] distance(
            rgb,
            palette_color(other),
        )
    &&& forall|other: int|
        CUBE_START <= other < index ==> distance(rgb, palette_color(index)) < #[trigger] distance(
            rgb,
            palette_color(other),
        )
}

/// The palette index nearest to `rgb`.
pub open spec fn nearest(rgb: Rgb) -> u8 {
    choose|index: u8| is_nearest(rgb, index as int)
}

/// At most one index is the nearest.
pub proof fn lemma_nearest_unique(rgb: Rgb, first: int, second: int)
    requires
        is_nearest(rgb, first),
        is_nearest(rgb, second),
    ensures
        first == second,
{
    if first < second {
        assert(distance(rgb, palette_color(second)) < distance(rgb, palette_color(first)));
    } else if second < first {
        assert(distance(rgb, palette_color(first)) < distance(rgb, palette_color(second)));
    }
}

/// Among the indices below `limit` one is the nearest.
proof fn lemma_nearest_below(rgb: Rgb, limit: int) -> (best: int)
    requires
        CUBE_START < limit <= 256,
    ensures
        CUBE_START <= best < limit,
        forall|other: int|
            CUBE_START <= other < limit ==> distance(rgb, palette_color(best))
                <= #[trigger] distance(rgb, palette_color(other)),
        forall|other: int|
            CUBE_START <= other < best ==> distance(rgb, palette_color(best))
                < #[trigger] distance(rgb, palette_color(other)),
    decreases limit,
{
    if limit == CUBE_START + 1 {
        CUBE_START as int
    } else {
        let before = lemma_nearest_below(rgb, limit - 1);
        if distance(rgb, palette_color(limit - 1)) < distance(rgb, palette_color(before)) {
            limit - 1
        } else {
            before
        }
    }
}

/// Every colour has its nearest palette index: the one whose colour is at
/// the least distance, and the lowest of those.
pub proof fn lemma_nearest(rgb: Rgb)
    ensures
        is_nearest(rgb, nearest(rgb) as int),
{
    let best = lemma_nearest_below(rgb, 256);
    assert(is_nearest(rgb, best as u8 as int));
}

fn cube_level(k: u8) -> (v: u8)
    requires
        k < 6,
    ensures
        v == level(k as int),
{
    if k == 0 {
        0
    } else {
        55 + 40 * k
    }
}

/// The colour that palette index `index` is defined as.
pub fn palette_rgb(index: u8) -> (rgb: Rgb)
    requires
        index >= CUBE_START,
    ensures
        rgb == palette_color(index as int),
{
    if index < GREY_START {
        let cell: u8 = index - CUBE_START;
        Rgb { r: cube_level(cell / 36), g: cube_level((cell / 6) % 6), b: cube_level(cell % 6) }
    } else {
        let grey: u8 = 8 + 10 * (index - GREY_START);
        Rgb { r: grey, g: grey, b: grey }
    }
}

fn gap_squared(a: u8, b: u8) -> (d: u32)
    ensures
        d == (a - b) * (a - b),
        d <= 65025,
{
    let gap: u32 = if a <= b {
        (b - a) as u32
    } else {
        (a - b) as u32
    };
    assert(gap * gap == (a - b) * (a - b) && gap * gap <= 65025) by (nonlinear_arith)
        requires
            gap == a - b || gap == b - a,
            0 <= gap <= 255,
    ;
    gap * gap
}

/// The squared Euclidean distance of two colours in channel space.
pub fn distance_squared(a: Rgb, b: Rgb) -> (d: u32)
    ensures
        d == distance(a, b),
{
    gap_squared(a.r, b.r) + gap_squared(a.g, b.g) + gap_squared(a.b, b.b)
}

/// Quantises a colour to the 8-bit palette: the index whose colour is
/// nearest in channel space, the lowest such index where several are as near.
pub fn quantize(rgb: Rgb) -> (index: u8)
    ensures
        is_nearest(rgb, index as int),
        index == nearest(rgb),
{
    let mut best: u8 = CUBE_START;
    let mut least: u32 = distance_squared(rgb, palette_rgb(CUBE_START));
    let mut next: u16 = 17;
    while next <= 255
        invariant
            17 <= next <= 256,
            CUBE_START <= best < next,
            least == distance(rgb, palette_color(best as int)),
            forall|other: int|
                CUBE_START <= other < next ==> least <= #[trigger] distance(
                    rgb,
                    palette_color(other),
                ),
            forall|other: int|
                CUBE_START <= other < best ==> least < #[trigger] distance(
                    rgb,
                    palette_color(other),
                ),
        decreases 256 - next,
    {
        let candidate: u32 = distance_squared(rgb, palette_rgb(next as u8));
        if candidate < least {
            best = next as u8;
            least = candidate;
        }
        next = next + 1;
    }
    proof {
        lemma_nearest(rgb);
        lemma_nearest_unique(rgb, best as int, nearest(rgb) as int);
    }
    best
}

} // verus!
