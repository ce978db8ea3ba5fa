use prism_core::render::arrow::{bitmap, BYTES_PER_PIXEL, SIZE};

/// Reads one pixel's red and alpha out of the bitmap.
fn pixel(pixels: &[u8], x: usize, y: usize) -> (u8, u8) {
    let at = (y * SIZE + x) * BYTES_PER_PIXEL;
    (pixels[at], pixels[at + 3])
}

#[test]
fn the_bitmap_is_the_size_it_says() {
    assert_eq!(bitmap().len(), SIZE * SIZE * BYTES_PER_PIXEL);
}

#[test]
fn the_body_of_the_arrow_is_opaque_white() {
    let pixels = bitmap();

    // Well inside the shaft, clear of the outline on either side.
    let (white, alpha) = pixel(&pixels, 3, 10);
    assert_eq!(alpha, 255, "the arrow's body should be opaque");
    assert_eq!(white, 255, "the arrow's body should be white");
}

#[test]
fn the_outline_is_opaque_and_dark() {
    let pixels = bitmap();

    // The left edge of the shaft runs down x = 0, so the first column is outline.
    let (white, alpha) = pixel(&pixels, 0, 10);
    assert_eq!(alpha, 255, "the outline should be opaque");
    assert!(white < 128, "the outline should be dark, got {white}");
}

#[test]
fn everything_beyond_the_arrow_is_clear() {
    let pixels = bitmap();

    for at in [(SIZE - 1, 0), (SIZE - 1, SIZE - 1), (0, SIZE - 1), (30, 4)] {
        let (_, alpha) = pixel(&pixels, at.0, at.1);
        assert_eq!(alpha, 0, "{at:?} is outside the arrow and should be clear");
    }
}

#[test]
fn the_tip_is_where_the_hotspot_is() {
    let pixels = bitmap();

    // The tip is the origin, so the very first pixel is covered while the one to its right,
    // across the arrow's leading edge, is not.
    assert!(pixel(&pixels, 0, 0).1 > 0, "the tip should be drawn");
    assert_eq!(
        pixel(&pixels, 6, 1).1,
        0,
        "the arrow does not reach right at the tip"
    );
}

#[test]
fn colour_never_exceeds_alpha() {
    let pixels = bitmap();

    // What premultiplied means. A pixel whose colour outran its alpha would brighten whatever
    // it was blended over instead of tinting it.
    for at in (0..pixels.len()).step_by(BYTES_PER_PIXEL) {
        let (white, alpha) = (pixels[at], pixels[at + 3]);
        assert!(
            white <= alpha,
            "pixel {at} has colour {white} over alpha {alpha}"
        );
    }
}

#[test]
fn edge_pixels_have_exact_coverage() {
    let pixels = bitmap();

    // The outline reaches 0.8 pixels inwards from x = 0, so three of the four sample columns of
    // the first pixel belong to it and one to the fill: a quarter of 255, rounded.
    assert_eq!(pixel(&pixels, 0, 10), (64, 255));
    // All three colour channels agree.
    let at = 10 * SIZE * BYTES_PER_PIXEL;
    assert_eq!(pixels[at], pixels[at + 1]);
    assert_eq!(pixels[at], pixels[at + 2]);
}
