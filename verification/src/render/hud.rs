//! The statistics panel drawn over the video.
//!
//! The text is rasterised by a drawing library that has no concept of an alpha channel: it writes
//! colour into the three low bytes of each pixel and leaves the fourth as it found it. Drawing
//! white on black and then reading the coverage back out of the brightness is what turns it into
//! the premultiplied bitmap the blend expects.

use vstd::prelude::*;

verus! {

/// Bytes per pixel of the panel.
pub const BYTES_PER_PIXEL: usize = 4;

/// How opaque the panel behind the text is, out of 255.
///
/// Dark and mostly opaque, because the picture underneath is arbitrary and the numbers have to
/// stay readable over all of it.
pub const BACKDROP_ALPHA: u32 = 140;

/// How much of a pixel the text covers: its brightness, since it is white.
pub open spec fn spec_coverage(blue: u8, green: u8, red: u8) -> u8 {
    if blue >= green && blue >= red {
        blue
    } else if green >= red {
        green
    } else {
        red
    }
}

/// How opaque a pixel is: what the text leaves free, the backdrop covers in part.
pub open spec fn panel_alpha(coverage: u8) -> u8 {
    (coverage + BACKDROP_ALPHA * (255 - coverage) / 255) as u8
}

/// Whether pixel `index` of a panel shows what was drawn there.
pub open spec fn shows(staged: Seq<u8>, drawn: Seq<u8>, index: int) -> bool {
    let at = index * 4;
    let coverage = spec_coverage(drawn[at], drawn[at + 1], drawn[at + 2]);
    &&& staged[at] == coverage
    &&& staged[at + 1] == coverage
    &&& staged[at + 2] == coverage
    &&& staged[at + 3] == panel_alpha(coverage)
}

/// Colour never exceeds alpha, and the panel is never less opaque than its backdrop.
pub proof fn the_panel_is_premultiplied(coverage: u8)
    ensures
        coverage <= panel_alpha(coverage),
        BACKDROP_ALPHA <= panel_alpha(coverage) <= 255,
        coverage + BACKDROP_ALPHA * (255 - coverage) / 255 <= 255,
{
}

/// How many whole pixels two bitmaps share.
pub open spec fn shared_pixels(staged: nat, drawn: nat) -> int {
    if staged / 4 <= drawn / 4 {
        (staged / 4) as int
    } else {
        (drawn / 4) as int
    }
}

/// Turns what was drawn into a premultiplied bitmap over the panel's backdrop.
///
/// The text is white, so its coverage is its brightness, and premultiplied white is that same
/// value in all three colour channels. The backdrop is black, whose premultiplied colour is
/// zero, which is why only the alpha channel carries it. Where the bitmaps are not of one size,
/// the pixels that both have are staged and the rest is left alone.
pub fn stage(staged: &mut [u8], drawn: &[u8])
    ensures
        final(staged)@.len() == old(staged)@.len(),
        ({
            let pixels = shared_pixels(old(staged)@.len(), drawn@.len());
            &&& forall|i: int| 0 <= i < pixels ==> #[trigger] shows(final(staged)@, drawn@, i)
            &&& forall|at: int|
                pixels * 4 <= at < old(staged)@.len() ==> #[trigger] final(staged)@[at]
                    == old(staged)@[at]
        }),
{
    let ghost before = staged@;
    assert(staged.len() == staged@.len() && drawn.len() == drawn@.len());
    let pixels: usize = if staged.len() / BYTES_PER_PIXEL <= drawn.len() / BYTES_PER_PIXEL {
        staged.len() / BYTES_PER_PIXEL
    } else {
        drawn.len() / BYTES_PER_PIXEL
    };
    let mut i: usize = 0;
    while i < pixels
        invariant
            i <= pixels,
            pixels == shared_pixels(before.len(), drawn@.len()),
            staged@.len() == before.len(),
            staged@.len() <= usize::MAX,
            forall|j: int| 0 <= j < i ==> #[trigger] shows(staged@, drawn@, j),
            forall|at: int|
                i * 4 <= at < before.len() ==> #[trigger] staged@[at] == before[at],
        decreases pixels - i,
    {
        let ghost was = staged@;
        let at: usize = i * BYTES_PER_PIXEL;
        let coverage: u8 = brightest(drawn[at], drawn[at + 1], drawn[at + 2]);
        let alpha: u32 = coverage as u32 + BACKDROP_ALPHA * (255 - coverage as u32) / 255;
        staged[at] = coverage;
        staged[at + 1] = coverage;
        staged[at + 2] = coverage;
        staged[at + 3] = alpha as u8;
        assert forall|j: int| 0 <= j < i + 1 implies #[trigger] shows(staged@, drawn@, j) by {
            if j < i {
                assert(shows(was, drawn@, j));
            }
        }
        i = i + 1;
    }
}

/// Returns the brightest of three channels.
fn brightest(blue: u8, green: u8, red: u8) -> (coverage: u8)
    ensures
        coverage == spec_coverage(blue, green, red),
{
    if blue >= green && blue >= red {
        blue
    } else if green >= red {
        green
    } else {
        red
    }
}

/// A pixel is as white as the brightest channel drawn there, in all three colours, and what the
/// text leaves free of it the backdrop covers by 140 in 255, rounded down.
pub proof fn text_is_white_over_a_dark_panel(staged: Seq<u8>, drawn: Seq<u8>, index: int)
    requires
        shows(staged, drawn, index),
    ensures
        ({
            let at = index * 4;
            let white = staged[at];
            let backdrop = staged[at + 3] - white;
            &&& white >= drawn[at] && white >= drawn[at + 1] && white >= drawn[at + 2]
            &&& white == drawn[at] || white == drawn[at + 1] || white == drawn[at + 2]
            &&& staged[at + 1] == white && staged[at + 2] == white
            &&& 255 * backdrop <= 140 * (255 - white) < 255 * (backdrop + 1)
        }),
{
}

} // verus!
