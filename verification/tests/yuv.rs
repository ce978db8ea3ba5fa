use prism_core::yuv::{PixelOrder, I420};

/// A solid image of one colour, in the given order.
fn solid(width: usize, height: usize, rgb: [u8; 3], order: PixelOrder) -> Vec<u8> {
    let mut image = vec![0u8; width * height * 4];

    for pixel in image.chunks_exact_mut(4) {
        pixel[order.red] = rgb[0];
        pixel[order.green] = rgb[1];
        pixel[order.blue] = rgb[2];
    }

    image
}

#[test]
fn black_and_white_land_on_the_edges_of_video_range() {
    let mut picture = I420::new(8, 8);

    picture.fill_from(
        &solid(8, 8, [0, 0, 0], PixelOrder::BGRX()),
        32,
        8,
        8,
        PixelOrder::BGRX(),
    );
    assert!(picture.y().iter().all(|&y| y == 16));

    picture.fill_from(
        &solid(8, 8, [255; 3], PixelOrder::BGRX()),
        32,
        8,
        8,
        PixelOrder::BGRX(),
    );
    assert!(picture.y().iter().all(|&y| y == 235));
    assert!(picture.u().iter().chain(picture.v()).all(|&c| c == 128));
}

#[test]
fn red_reads_as_red_whichever_order_it_arrived_in() {
    for order in [
        PixelOrder::BGRX(),
        PixelOrder::RGBX(),
        PixelOrder::XRGB(),
        PixelOrder::XBGR(),
    ] {
        let mut picture = I420::new(4, 4);

        picture.fill_from(&solid(4, 4, [255, 0, 0], order), 16, 4, 4, order);

        // BT.709 red: Y 63, Cb 102, Cr 240.
        assert!(
            picture.y().iter().all(|&y| (62..=64).contains(&y)),
            "{order:?}"
        );
        assert!(
            picture.u().iter().all(|&u| (101..=103).contains(&u)),
            "{order:?}"
        );
        assert!(
            picture.v().iter().all(|&v| (239..=241).contains(&v)),
            "{order:?}"
        );
    }
}

#[test]
fn a_larger_source_is_scaled_down_to_the_picture() {
    let mut picture = I420::new(4, 2);
    let mut image = solid(8, 4, [0, 0, 0], PixelOrder::BGRX());

    // The right half white.
    for row in 0..4 {
        for column in 4..8 {
            image[(row * 8 + column) * 4..][..3].copy_from_slice(&[255, 255, 255]);
        }
    }

    picture.fill_from(&image, 32, 8, 4, PixelOrder::BGRX());

    assert_eq!(&picture.y()[..4], &[16, 16, 235, 235]);
}

#[test]
fn padded_rows_are_read_at_their_stride() {
    let mut picture = I420::new(2, 2);
    let mut image = vec![0u8; 2 * 64];

    image[..8].copy_from_slice(&[255; 8]);
    image[64..72].copy_from_slice(&[255; 8]);

    picture.fill_from(&image, 64, 2, 2, PixelOrder::BGRX());

    assert!(picture.y().iter().all(|&y| y == 235));
}

#[test]
fn a_torn_frame_is_read_as_far_as_it_goes() {
    let mut picture = I420::new(4, 4);

    picture.fill_from(&[255u8; 16], 16, 4, 4, PixelOrder::BGRX());

    assert!(picture.y().iter().all(|&y| y == 235));
}

#[test]
fn an_odd_size_rounds_down_to_even() {
    let picture = I420::new(7, 5);

    assert_eq!((picture.width(), picture.height()), (6, 4));
    assert_eq!(picture.u().len(), 6);
}

#[test]
fn a_new_picture_is_black_and_even() {
    let picture = I420::new(1921, 1081);

    assert_eq!((picture.width(), picture.height()), (1920, 1080));
    assert_eq!(picture.y().len(), 1920 * 1080);
    assert_eq!(picture.u().len(), 960 * 540);
    assert!(picture.y().iter().all(|&y| y == 16));
    assert!(picture.v().iter().all(|&v| v == 128));
    assert_eq!(I420::new(0, 1).width(), 2);
}

#[test]
fn primary_colours_have_exact_samples() {
    for (rgb, expected) in [
        ([255u8, 0, 0], (63u8, 103u8, 240u8)),
        ([0, 255, 0], (172, 42, 27)),
        ([0, 0, 255], (32, 240, 119)),
        ([128, 128, 128], (126, 128, 128)),
    ] {
        let mut picture = I420::new(2, 2);
        picture.fill_from(
            &solid(2, 2, rgb, PixelOrder::RGBX()),
            8,
            2,
            2,
            PixelOrder::RGBX(),
        );
        assert_eq!(
            (picture.y()[0], picture.u()[0], picture.v()[0]),
            expected,
            "{rgb:?}"
        );
    }
}

#[test]
fn a_source_with_nothing_to_read_leaves_the_picture_alone() {
    let mut picture = I420::new(4, 4);
    let before = picture.y().to_vec();

    picture.fill_from(&[], 16, 4, 4, PixelOrder::BGRX());
    picture.fill_from(&[255; 64], 15, 4, 4, PixelOrder::BGRX());
    picture.fill_from(&[255; 64], 0, 4, 4, PixelOrder::BGRX());

    assert_eq!(picture.y(), &before[..]);
}

#[test]
fn planes_can_be_written_into() {
    let mut picture = I420::new(2, 2);
    {
        let (y, u, v) = picture.planes_mut();
        y[3] = 7;
        u[0] = 8;
        v[0] = 9;
    }
    assert_eq!(picture.y(), &[16, 16, 16, 7]);
    assert_eq!((picture.u()[0], picture.v()[0]), (8, 9));
}
