//! The cursor bitmap the client draws for itself.
//!
//! The host excludes its cursor from the captured video so the client can draw one that answers
//! the mouse immediately rather than a video frame later. That leaves the client needing a
//! cursor bitmap, and until the control channel carries real cursor shapes there is one: a plain
//! arrow.
//!
//! Drawn here in arithmetic rather than by each platform's drawing library. The clients then
//! show the same cursor by construction instead of by inspection. The arithmetic is exact: every
//! length is a whole number of fortieths of a pixel, in which both the corners of the arrow and
//! the places that are sampled are whole, and distances are compared by their squares.

use vstd::prelude::*;

verus! {

/// Width and height of the cursor bitmap in pixels.
///
/// Sized for the drawable, which is in physical pixels, so this is roughly the size a system
/// cursor occupies on a display with a two-times backing scale.
pub const SIZE: usize = 40;

/// Bytes per pixel in the cursor bitmap.
pub const BYTES_PER_PIXEL: usize = 4;

/// How many corners the arrow has.
const CORNERS: usize = 7;

/// Half the thickness of the outline: 0.8 pixels.
///
/// The outline is centred on the path, half inside the shape and half outside, so it does not
/// enlarge the arrow the way an outward stroke would.
const HALF_WIDTH: i64 = 32;

/// How many samples per pixel per axis are taken to find the edges.
///
/// Four, so sixteen per pixel. The bitmap is built once at startup, which is why this can be
/// brute force rather than clever.
const SUPERSAMPLE: usize = 4;

/// A corner of the arrow, in fortieths of a pixel right and down from the tip.
///
/// The tip is the hotspot and sits at the origin, so placing the bitmap's top left corner at the
/// pointer position puts the tip exactly where the pointer is. The corners are those at
/// (0, 0), (0, 26), (6.5, 19.5), (10.8, 30), (15.4, 28), (11.2, 18) and (19, 18) pixels, and the
/// first one follows the last.
pub open spec fn spec_corner(index: int) -> (int, int) {
    if index == 1 {
        (0, 1040)
    } else if index == 2 {
        (260, 780)
    } else if index == 3 {
        (432, 1200)
    } else if index == 4 {
        (616, 1120)
    } else if index == 5 {
        (448, 720)
    } else if index == 6 {
        (760, 720)
    } else {
        (0, 0)
    }
}

/// The product of a number with itself.
pub open spec fn square(n: int) -> int {
    n * n
}

/// The square of the distance from a point to edge `index`, as a fraction: the numerator and a
/// positive denominator. The nearest point of an edge is where the perpendicular meets it, or
/// the end that the perpendicular misses.
pub open spec fn distance_squared(at: (int, int), index: int) -> (int, int) {
    let (from, to) = (spec_corner(index), spec_corner(index + 1));
    let along = (to.0 - from.0, to.1 - from.1);
    let offset = (at.0 - from.0, at.1 - from.1);
    let length = square(along.0) + square(along.1);
    let reach = offset.0 * along.0 + offset.1 * along.1;
    if reach <= 0 {
        (square(offset.0) + square(offset.1), 1)
    } else if reach >= length {
        (square(at.0 - to.0) + square(at.1 - to.1), 1)
    } else {
        (square(offset.0 * along.1 - offset.1 * along.0), length)
    }
}

/// Whether a point is less than half the outline's width from edge `index`.
pub open spec fn closer(at: (int, int), index: int) -> bool {
    let (num, den) = distance_squared(at, index);
    num < square(32) * den
}

/// Whether a point is exactly half the outline's width from edge `index`, or closer.
pub open spec fn touching(at: (int, int), index: int) -> bool {
    let (num, den) = distance_squared(at, index);
    num <= square(32) * den
}

/// Whether a ray from a point along positive x crosses edge `index`.
///
/// The half-open comparison of heights is what keeps a corner on the ray from being counted
/// twice.
pub open spec fn crosses(at: (int, int), index: int) -> bool {
    let (from, to) = (spec_corner(index), spec_corner(index + 1));
    let rise = to.1 - from.1;
    let left = (at.0 - from.0) * rise;
    let right = (to.0 - from.0) * (at.1 - from.1);
    (from.1 > at.1) != (to.1 > at.1) && if rise > 0 {
        left < right
    } else {
        left > right
    }
}

/// Whether a ray from a point crosses the first `edges` edges an odd number of times.
pub open spec fn crosses_oddly(at: (int, int), edges: int) -> bool
    decreases edges,
{
    if edges <= 0 {
        false
    } else {
        crosses_oddly(at, edges - 1) != crosses(at, edges - 1)
    }
}

/// Whether a point lies inside the arrow.
pub open spec fn contained(at: (int, int)) -> bool {
    crosses_oddly(at, 7)
}

/// What a point of the bitmap belongs to.
#[derive(Debug, Clone, Copy, PartialEq, Eq, Structural)]
pub enum Cover {
    /// Neither the arrow nor its outline.
    Outside,
    /// The outline.
    Edge,
    /// The arrow, clear of its outline.
    Inside,
}

/// What a point belongs to: the outline reaches half its width to either side of the path.
pub open spec fn cover_of(at: (int, int)) -> Cover {
    if contained(at) {
        if exists|i: int| 0 <= i < 7 && #[trigger] closer(at, i) {
            Cover::Edge
        } else {
            Cover::Inside
        }
    } else {
        if exists|i: int| 0 <= i < 7 && #[trigger] touching(at, i) {
            Cover::Edge
        } else {
            Cover::Outside
        }
    }
}

/// Where sample `n` of a pixel is taken, four to a row, each in the middle of its sixteenth.
pub open spec fn sample_at(x: int, y: int, n: int) -> (int, int) {
    (40 * x + 10 * (n % 4) + 5, 40 * y + 10 * (n / 4) + 5)
}

/// How many of the first `n` samples of a pixel belong to `cover`.
pub open spec fn samples_of(x: int, y: int, n: int, cover: Cover) -> int
    decreases n,
{
    if n <= 0 {
        0
    } else {
        samples_of(x, y, n - 1, cover) + if cover_of(sample_at(x, y, n - 1)) == cover {
            1int
        } else {
            0int
        }
    }
}

/// A count of samples out of sixteen as a byte, rounded to the nearest.
pub open spec fn coverage(covered: int) -> int {
    (covered * 255 + 8) / 16
}

/// How white a pixel is: how much of it lies inside the outline.
pub open spec fn white_of(x: int, y: int) -> int {
    coverage(samples_of(x, y, 16, Cover::Inside))
}

/// How opaque a pixel is: how much of it the arrow and its outline cover.
pub open spec fn alpha_of(x: int, y: int) -> int {
    coverage(samples_of(x, y, 16, Cover::Inside) + samples_of(x, y, 16, Cover::Edge))
}

/// Counts of samples are counts.
proof fn lemma_samples(x: int, y: int, n: int)
    requires
        0 <= n,
    ensures
        0 <= samples_of(x, y, n, Cover::Inside),
        0 <= samples_of(x, y, n, Cover::Edge),
        samples_of(x, y, n, Cover::Inside) + samples_of(x, y, n, Cover::Edge) <= n,
    decreases n,
{
    if n > 0 {
        lemma_samples(x, y, n - 1);
    }
}

/// Colour never exceeds alpha, which is what premultiplied means: a pixel whose colour outran
/// its alpha would brighten whatever it was blended over instead of tinting it.
pub proof fn colour_is_premultiplied(x: int, y: int)
    ensures
        0 <= white_of(x, y) <= alpha_of(x, y) <= 255,
{
    lemma_samples(x, y, 16);
}

/// Whether the pixel at (`x`, `y`) of a bitmap is that of the arrow.
pub open spec fn shows_pixel(pixels: Seq<u8>, x: int, y: int) -> bool {
    let at = (y * 40 + x) * 4;
    &&& pixels[at] == white_of(x, y)
    &&& pixels[at + 1] == white_of(x, y)
    &&& pixels[at + 2] == white_of(x, y)
    &&& pixels[at + 3] == alpha_of(x, y)
}

/// Whether a bitmap shows the arrow: every pixel in its place, with rows running top down.
pub open spec fn shows_the_arrow(pixels: Seq<u8>) -> bool {
    &&& pixels.len() == SIZE * SIZE * BYTES_PER_PIXEL
    &&& forall|x: int, y: int|
        0 <= x < SIZE && 0 <= y < SIZE ==> #[trigger] shows_pixel(pixels, x, y)
}

/// Draws the arrow into a fresh RGBA bitmap with premultiplied alpha.
///
/// Rows run top down, so the first row of the returned buffer is the top of the image and the tip
/// sits at its top left corner. Premultiplied because that is what the renderers' blend expects:
/// a white arrow is stored with its colour already scaled by its coverage. The fill is white and
/// the outline black, both fully opaque where they cover, so the colour channels carry the white
/// coverage alone while alpha carries both.
#[must_use]
pub fn bitmap() -> (pixels: Vec<u8>)
    ensures
        shows_the_arrow(pixels@),
{
    let mut pixels: Vec<u8> = Vec::new();
    let mut x: usize = 0;
    let mut y: usize = 0;
    let mut i: usize = 0;
    while i < SIZE * SIZE
        invariant
            i <= 1600,
            x < 40,
            i == 40 * y + x,
            pixels@.len() == 4 * i,
            forall|px: int, py: int|
                0 <= px < 40 && 0 <= py && 40 * py + px < i ==> #[trigger] shows_pixel(
                    pixels@,
                    px,
                    py,
                ),
        decreases 1600 - i,
    {
        let ghost before = pixels@;
        let (white, alpha) = pixel(x, y);
        pixels.push(white);
        pixels.push(white);
        pixels.push(white);
        pixels.push(alpha);
        assert forall|px: int, py: int| 0 <= px < 40 && 0 <= py && 40 * py + px < i + 1 implies
            #[trigger] shows_pixel(pixels@, px, py) by {
            if 40 * py + px < i {
                assert(shows_pixel(before, px, py));
            } else {
                assert(px == x && py == y);
            }
        }
        i = i + 1;
        x = x + 1;
        if x == SIZE {
            x = 0;
            y = y + 1;
        }
    }
    pixels
}

/// Returns the white and the alpha of one pixel.
fn pixel(x: usize, y: usize) -> (bytes: (u8, u8))
    requires
        x < 40,
        y < 40,
    ensures
        bytes.0 == white_of(x as int, y as int),
        bytes.1 == alpha_of(x as int, y as int),
{
    let mut inside: u32 = 0;
    let mut edge: u32 = 0;
    let mut n: usize = 0;
    while n < SUPERSAMPLE * SUPERSAMPLE
        invariant
            x < 40,
            y < 40,
            n <= 16,
            inside <= n,
            edge <= n,
            inside == samples_of(x as int, y as int, n as int, Cover::Inside),
            edge == samples_of(x as int, y as int, n as int, Cover::Edge),
        decreases 16 - n,
    {
        let at: (i64, i64) = (
            (40 * x + 10 * (n % SUPERSAMPLE) + 5) as i64,
            (40 * y + 10 * (n / SUPERSAMPLE) + 5) as i64,
        );
        assert((at.0 as int, at.1 as int) == sample_at(x as int, y as int, n as int));
        match cover(at) {
            Cover::Inside => {
                inside = inside + 1;
            },
            Cover::Edge => {
                edge = edge + 1;
            },
            Cover::Outside => {},
        }
        n = n + 1;
    }
    proof {
        lemma_samples(x as int, y as int, 16);
    }
    (to_byte(inside), to_byte(inside + edge))
}

/// Scales a count of samples out of sixteen to a byte, rounding to nearest.
fn to_byte(covered: u32) -> (byte: u8)
    requires
        covered <= 16,
    ensures
        byte == coverage(covered as int),
{
    ((covered * 255 + 8) / 16) as u8
}

/// Returns a corner of the arrow.
fn corner(index: usize) -> (at: (i64, i64))
    requires
        index <= 7,
    ensures
        (at.0 as int, at.1 as int) == spec_corner(index as int),
        0 <= at.0 <= 1200,
        0 <= at.1 <= 1200,
{
    match index {
        1 => (0, 1040),
        2 => (260, 780),
        3 => (432, 1200),
        4 => (616, 1120),
        5 => (448, 720),
        6 => (760, 720),
        _ => (0, 0),
    }
}

/// Returns what a point belongs to.
fn cover(at: (i64, i64)) -> (cover: Cover)
    requires
        0 <= at.0 < 1600,
        0 <= at.1 < 1600,
    ensures
        cover == cover_of((at.0 as int, at.1 as int)),
{
    let ghost here = (at.0 as int, at.1 as int);
    let mut inside: bool = false;
    let mut is_closer: bool = false;
    let mut is_touching: bool = false;
    let mut index: usize = 0;
    while index < CORNERS
        invariant
            0 <= at.0 < 1600,
            0 <= at.1 < 1600,
            here == (at.0 as int, at.1 as int),
            index <= 7,
            inside == crosses_oddly(here, index as int),
            is_closer == exists|i: int| 0 <= i < index && #[trigger] closer(here, i),
            is_touching == exists|i: int| 0 <= i < index && #[trigger] touching(here, i),
        decreases 7 - index,
    {
        let (num, den) = edge_distance_squared(at, index);
        assert(closer(here, index as int) == (num < 1024 * den));
        assert(touching(here, index as int) == (num <= 1024 * den));
        if num < HALF_WIDTH * HALF_WIDTH * den {
            is_closer = true;
        }
        if num <= HALF_WIDTH * HALF_WIDTH * den {
            is_touching = true;
        }
        if ray_crosses(at, index) {
            inside = !inside;
        }
        index = index + 1;
    }
    if inside {
        if is_closer {
            Cover::Edge
        } else {
            Cover::Inside
        }
    } else {
        if is_touching {
            Cover::Edge
        } else {
            Cover::Outside
        }
    }
}

/// The product of two lengths that are not too long.
fn product(a: i64, b: i64) -> (result: i64)
    requires
        -1600 <= a <= 1600,
        -1600 <= b <= 1600,
    ensures
        result == a * b,
        -2_560_000 <= result <= 2_560_000,
{
    assert(-2_560_000 <= a * b <= 2_560_000) by (nonlinear_arith)
        requires
            -1600 <= a <= 1600,
            -1600 <= b <= 1600,
    ;
    a * b
}

/// Returns the square of the distance from a point to edge `index`, as a fraction.
fn edge_distance_squared(at: (i64, i64), index: usize) -> (fraction: (i64, i64))
    requires
        0 <= at.0 < 1600,
        0 <= at.1 < 1600,
        index < 7,
    ensures
        (fraction.0 as int, fraction.1 as int) == distance_squared(
            (at.0 as int, at.1 as int),
            index as int,
        ),
        0 < fraction.1 <= 5_120_000,
{
    let from: (i64, i64) = corner(index);
    let to: (i64, i64) = corner(index + 1);
    let along: (i64, i64) = (to.0 - from.0, to.1 - from.1);
    let offset: (i64, i64) = (at.0 - from.0, at.1 - from.1);
    let length: i64 = product(along.0, along.0) + product(along.1, along.1);
    let reach: i64 = product(offset.0, along.0) + product(offset.1, along.1);
    if reach <= 0 {
        (product(offset.0, offset.0) + product(offset.1, offset.1), 1)
    } else if reach >= length {
        (product(at.0 - to.0, at.0 - to.0) + product(at.1 - to.1, at.1 - to.1), 1)
    } else {
        let across: i64 = product(offset.0, along.1) - product(offset.1, along.0);
        assert(0 <= across * across <= 5_120_000 * 5_120_000) by (nonlinear_arith)
            requires
                -5_120_000 <= across <= 5_120_000,
        ;
        (across * across, length)
    }
}

/// Returns whether a ray from a point along positive x crosses edge `index`.
fn ray_crosses(at: (i64, i64), index: usize) -> (yes: bool)
    requires
        0 <= at.0 < 1600,
        0 <= at.1 < 1600,
        index < 7,
    ensures
        yes == crosses((at.0 as int, at.1 as int), index as int),
{
    let from: (i64, i64) = corner(index);
    let to: (i64, i64) = corner(index + 1);
    if (from.1 > at.1) == (to.1 > at.1) {
        return false;
    }
    let rise: i64 = to.1 - from.1;
    let left: i64 = product(at.0 - from.0, rise);
    let right: i64 = product(to.0 - from.0, at.1 - from.1);
    if rise > 0 {
        left < right
    } else {
        left > right
    }
}

/// A share of sixteen samples is shown to the nearest of 255 steps, and every sample of a pixel
/// lies inside that pixel.
pub proof fn a_share_is_shown_to_the_nearest_step(covered: int, x: int, y: int, n: int)
    requires
        0 <= covered <= 16,
        0 <= n < 16,
    ensures
        -8 <= 16 * coverage(covered) - 255 * covered <= 8,
        40 * x <= sample_at(x, y, n).0 < 40 * x + 40,
        40 * y <= sample_at(x, y, n).1 < 40 * y + 40,
{
}

/// A point that is above the whole arrow or below it is not inside it.
pub proof fn nothing_above_or_below_is_inside_the_arrow(at: (int, int))
    requires
        at.1 < 0 || at.1 >= 1200,
    ensures
        !contained(at),
{
    reveal_with_fuel(crosses_oddly, 8);
}

} // verus!
