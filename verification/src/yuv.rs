//! Pictures as planes of luma and chroma, in system memory.
//!
//! A desktop that is captured as bytes and encoded in software takes the shape of I420 on its
//! way through: a full plane of luma and two quarter planes of chroma, one after the other.
//!
//! The colour is BT.709, video range, which is what the renderers undo, so a picture made here
//! and shown there comes out the colour it went in. A different matrix would not fail; it would
//! tint every picture slightly, which is worse.

use vstd::prelude::*;

verus! {

/// Where the three colours sit in a four-byte pixel.
///
/// A capture offers several orders and the compositor chooses one, so the conversion is told
/// rather than assuming. The fourth byte is padding or alpha, and either way it is not read.
#[derive(Debug, Clone, Copy, PartialEq, Eq, Structural)]
pub struct PixelOrder {
    /// The byte holding red.
    pub red: usize,
    /// The byte holding green.
    pub green: usize,
    /// The byte holding blue.
    pub blue: usize,
}

impl PixelOrder {
    /// Whether all three colours lie in the four bytes of a pixel.
    pub open spec fn in_pixel(self) -> bool {
        self.red < 4 && self.green < 4 && self.blue < 4
    }

    /// Blue, green, red, then padding: what most compositors hand over.
    #[allow(non_snake_case)]
    #[must_use]
    pub fn BGRX() -> (order: Self)
        ensures
            order == (PixelOrder { red: 2, green: 1, blue: 0 }),
            order.in_pixel(),
    {
        PixelOrder { red: 2, green: 1, blue: 0 }
    }

    /// Red, green, blue, then padding.
    #[allow(non_snake_case)]
    #[must_use]
    pub fn RGBX() -> (order: Self)
        ensures
            order == (PixelOrder { red: 0, green: 1, blue: 2 }),
            order.in_pixel(),
    {
        PixelOrder { red: 0, green: 1, blue: 2 }
    }

    /// Padding, then red, green, blue.
    #[allow(non_snake_case)]
    #[must_use]
    pub fn XRGB() -> (order: Self)
        ensures
            order == (PixelOrder { red: 1, green: 2, blue: 3 }),
            order.in_pixel(),
    {
        PixelOrder { red: 1, green: 2, blue: 3 }
    }

    /// Padding, then blue, green, red.
    #[allow(non_snake_case)]
    #[must_use]
    pub fn XBGR() -> (order: Self)
        ensures
            order == (PixelOrder { red: 3, green: 2, blue: 1 }),
            order.in_pixel(),
    {
        PixelOrder { red: 3, green: 2, blue: 1 }
    }
}

/// `value` kept inside a byte.
pub open spec fn byte_of(value: int) -> u8 {
    if value < 0 {
        0
    } else if value > 255 {
        255
    } else {
        value as u8
    }
}

/// A quarter of `n`, rounded towards zero.
pub open spec fn quarter(n: int) -> int {
    if n >= 0 {
        n / 4
    } else {
        -((-n) / 4)
    }
}

/// BT.709 luma, video range, of gamma-encoded red, green and blue. Division rounds down.
pub open spec fn spec_luma(rgb: (u8, u8, u8)) -> u8 {
    byte_of((47 * rgb.0 + 157 * rgb.1 + 16 * rgb.2 + 128) / 256 + 16)
}

/// BT.709 blue difference, video range, centred on zero. Division rounds down.
pub open spec fn spec_blue_difference(rgb: (u8, u8, u8)) -> int {
    (-26 * rgb.0 - 87 * rgb.1 + 112 * rgb.2 + 128) / 256
}

/// BT.709 red difference, video range, centred on zero. Division rounds down.
pub open spec fn spec_red_difference(rgb: (u8, u8, u8)) -> int {
    (112 * rgb.0 - 102 * rgb.1 - 10 * rgb.2 + 128) / 256
}

/// The chroma sample of four pixels, whose differences add up to `sum`.
pub open spec fn chroma(sum: int) -> u8 {
    byte_of(quarter(sum + 2) + 128)
}

/// No colour leaves video range: luma lies between 16 and 235, and the chroma of any four pixels
/// between 16 and 240.
pub proof fn samples_stay_in_video_range(
    a: (u8, u8, u8),
    b: (u8, u8, u8),
    c: (u8, u8, u8),
    d: (u8, u8, u8),
)
    ensures
        16 <= spec_luma(a) <= 235,
        16 <= chroma(
            spec_blue_difference(a) + spec_blue_difference(b) + spec_blue_difference(c)
                + spec_blue_difference(d),
        ) <= 240,
        16 <= chroma(
            spec_red_difference(a) + spec_red_difference(b) + spec_red_difference(c)
                + spec_red_difference(d),
        ) <= 240,
{
}

/// A block of greys has no colour, however light each of them is.
pub proof fn greys_have_no_colour(a: u8, b: u8, c: u8, d: u8)
    ensures
        chroma(
            spec_blue_difference((a, a, a)) + spec_blue_difference((b, b, b))
                + spec_blue_difference((c, c, c)) + spec_blue_difference((d, d, d)),
        ) == 128,
        chroma(
            spec_red_difference((a, a, a)) + spec_red_difference((b, b, b)) + spec_red_difference(
                (c, c, c),
            ) + spec_red_difference((d, d, d)),
        ) == 128,
{
}

/// The smaller of two integers.
pub open spec fn least(a: int, b: int) -> int {
    if a <= b {
        a
    } else {
        b
    }
}

/// At least `floor`.
pub open spec fn at_least(n: int, floor: int) -> int {
    if n < floor {
        floor
    } else {
        n
    }
}

/// An image of four bytes a pixel that a picture of another size is filled from.
pub struct Source {
    /// Its bytes.
    pub bytes: Seq<u8>,
    /// How many bytes each of its rows takes up.
    pub stride: int,
    /// Its width in pixels, at least one.
    pub width: int,
    /// Its height in pixels, at least one.
    pub height: int,
    /// Where the colours sit.
    pub order: PixelOrder,
}

impl Source {
    /// How many of its rows are there: a frame that arrived torn holds fewer than its height.
    pub open spec fn rows(self) -> int {
        least(self.bytes.len() as int / at_least(self.stride, 1), self.height)
    }

    /// Whether there is anything to read.
    pub open spec fn usable(self) -> bool {
        self.rows() > 0 && self.stride >= self.width * 4
    }

    /// Where the pixel nearest to (`x`, `y`) of a picture of `across` by `down` begins.
    pub open spec fn at(self, x: int, y: int, across: int, down: int) -> int {
        let sx = least(x * self.width / across, self.width - 1);
        let sy = least(y * self.height / down, self.rows() - 1);
        sy * self.stride + sx * 4
    }

    /// Whether every pixel that a picture of `across` by `down` asks for can be read.
    pub open spec fn covers(self, across: int, down: int) -> bool {
        forall|x: int, y: int|
            #![trigger self.at(x, y, across, down)]
            0 <= x < across && 0 <= y < down ==> {
                let at = self.at(x, y, across, down);
                &&& 0 <= at
                &&& at + self.order.red < self.bytes.len()
                &&& at + self.order.green < self.bytes.len()
                &&& at + self.order.blue < self.bytes.len()
            }
    }

    /// The colour a picture of `across` by `down` has at (`x`, `y`): that of the nearest pixel.
    pub open spec fn colour(self, x: int, y: int, across: int, down: int) -> (u8, u8, u8) {
        let at = self.at(x, y, across, down);
        (
            self.bytes[at + self.order.red],
            self.bytes[at + self.order.green],
            self.bytes[at + self.order.blue],
        )
    }

    /// The sum of the blue differences of a two by two block.
    pub open spec fn blue_sum(self, column: int, row: int, across: int, down: int) -> int {
        spec_blue_difference(self.colour(column, row, across, down)) + spec_blue_difference(
            self.colour(column + 1, row, across, down),
        ) + spec_blue_difference(self.colour(column, row + 1, across, down))
            + spec_blue_difference(self.colour(column + 1, row + 1, across, down))
    }

    /// The sum of the red differences of a two by two block.
    pub open spec fn red_sum(self, column: int, row: int, across: int, down: int) -> int {
        spec_red_difference(self.colour(column, row, across, down)) + spec_red_difference(
            self.colour(column + 1, row, across, down),
        ) + spec_red_difference(self.colour(column, row + 1, across, down)) + spec_red_difference(
            self.colour(column + 1, row + 1, across, down),
        )
    }
}

/// An image whose colours lie in the four bytes of a pixel can be read wherever a picture asks.
pub proof fn a_usable_source_covers_every_picture(source: Source, across: int, down: int)
    requires
        source.usable(),
        source.width >= 1,
        source.order.in_pixel(),
        across >= 1,
        down >= 1,
    ensures
        source.covers(across, down),
{
    assert forall|x: int, y: int|
        #![trigger source.at(x, y, across, down)]
        0 <= x < across && 0 <= y < down implies {
            let at = source.at(x, y, across, down);
            &&& 0 <= at
            &&& at + source.order.red < source.bytes.len()
            &&& at + source.order.green < source.bytes.len()
            &&& at + source.order.blue < source.bytes.len()
        } by {
        let len = source.bytes.len() as int;
        let rows = source.rows();
        let stride = source.stride;
        let sx = least(x * source.width / across, source.width - 1);
        let sy = least(y * source.height / down, rows - 1);
        assert(x * source.width / across >= 0 && y * source.height / down >= 0) by (nonlinear_arith)
            requires
                x >= 0,
                y >= 0,
                source.width >= 1,
                source.height >= 1,
                across >= 1,
                down >= 1,
        ;
        assert(rows * stride <= len) by (nonlinear_arith)
            requires
                rows <= len / stride,
                stride >= 1,
                len >= 0,
        ;
        assert(0 <= sy * stride <= (rows - 1) * stride) by (nonlinear_arith)
            requires
                0 <= sy <= rows - 1,
                stride >= 1,
        ;
        assert((rows - 1) * stride == rows * stride - stride) by (nonlinear_arith);
    }
}

/// As many rows are there as the bytes hold whole, and no more than the image has.
pub proof fn a_torn_image_has_the_rows_its_bytes_hold(source: Source)
    requires
        source.stride >= 1,
        source.height >= 1,
    ensures
        0 <= source.rows() <= source.height,
        source.rows() * source.stride <= source.bytes.len(),
        source.rows() == source.height || (source.rows() + 1) * source.stride
            > source.bytes.len(),
{
    let len = source.bytes.len() as int;
    let whole = len / source.stride;
    let rows = source.rows();
    assert(whole * source.stride <= len && len < (whole + 1) * source.stride && whole >= 0)
        by (nonlinear_arith)
        requires
            whole == len / source.stride,
            source.stride >= 1,
            len >= 0,
    ;
    assert(rows * source.stride <= whole * source.stride) by (nonlinear_arith)
        requires
            rows <= whole,
            source.stride >= 1,
    ;
}

/// A size is rounded down to even, and never below two.
pub proof fn a_size_is_rounded_down_to_even(size: u32)
    ensures
        even(size) % 2 == 0,
        even(size) >= 2,
        size >= 2 ==> even(size) <= size < even(size) + 2,
{
}

/// The colour of the pixel in column `x` and row `y` of an image, by where its bytes lie.
pub open spec fn pixel_at(bytes: Seq<u8>, stride: int, order: PixelOrder, x: int, y: int) -> (
    u8,
    u8,
    u8,
) {
    (
        bytes[y * stride + 4 * x + order.red],
        bytes[y * stride + 4 * x + order.green],
        bytes[y * stride + 4 * x + order.blue],
    )
}

/// A picture reads each of its pixels from the source pixel that covers it: the one in the
/// column that holds the same share of the width, and in the row that holds the same share of the
/// height, or in the last row there is where that one is missing.
pub proof fn every_pixel_is_read_from_the_one_that_covers_it(
    source: Source,
    x: int,
    y: int,
    across: int,
    down: int,
    sx: int,
    sy: int,
)
    requires
        source.width >= 1,
        source.height >= 1,
        source.rows() >= 1,
        0 <= x < across,
        0 <= y < down,
        sx * across <= x * source.width < (sx + 1) * across,
        sy * down <= y * source.height < (sy + 1) * down,
    ensures
        0 <= sx < source.width,
        0 <= sy < source.height,
        ({
            let row = if sy < source.rows() {
                sy
            } else {
                source.rows() - 1
            };
            source.colour(x, y, across, down) == pixel_at(
                source.bytes,
                source.stride,
                source.order,
                sx,
                row,
            )
        }),
{
    lemma_share(x, source.width, across, sx);
    lemma_share(y, source.height, down, sy);
}

/// The share of a length that a place takes, and that it lies inside.
proof fn lemma_share(x: int, from: int, to: int, place: int)
    requires
        0 <= x < to,
        from >= 1,
        place * to <= x * from < (place + 1) * to,
    ensures
        x * from / to == place,
        0 <= place < from,
{
    let rest = x * from - place * to;
    assert(place * to + to == (place + 1) * to) by (nonlinear_arith);
    assert(x * from == to * place + rest) by (nonlinear_arith)
        requires
            rest == x * from - place * to,
    ;
    vstd::arithmetic::div_mod::lemma_fundamental_div_mod_converse(x * from, to, place, rest);
    assert(place < from) by (nonlinear_arith)
        requires
            place * to <= x * from,
            x < to,
            from >= 1,
            to >= 1,
    ;
    assert(place >= 0) by (nonlinear_arith)
        requires
            0 <= x * from < (place + 1) * to,
            to >= 1,
    ;
    assert(x * from >= 0) by (nonlinear_arith)
        requires
            x >= 0,
            from >= 1,
    ;
}

/// Where the source has the picture's own size and is whole, every pixel is read from its own
/// place.
pub proof fn a_picture_of_its_own_size_is_read_as_it_is(source: Source, x: int, y: int)
    requires
        source.width >= 1,
        source.height >= 1,
        source.stride >= 1,
        source.bytes.len() >= source.stride * source.height,
        0 <= x < source.width,
        0 <= y < source.height,
    ensures
        source.colour(x, y, source.width, source.height) == pixel_at(
            source.bytes,
            source.stride,
            source.order,
            x,
            y,
        ),
{
    let whole = source.bytes.len() as int / source.stride;
    let len = source.bytes.len() as int;
    assert(whole >= source.height) by (nonlinear_arith)
        requires
            whole == len / source.stride,
            len >= source.stride * source.height,
            source.stride >= 1,
    ;
    assert(x * source.width < (x + 1) * source.width) by (nonlinear_arith)
        requires
            source.width >= 1,
    ;
    assert(y * source.height < (y + 1) * source.height) by (nonlinear_arith)
        requires
            source.height >= 1,
    ;
    every_pixel_is_read_from_the_one_that_covers_it(
        source,
        x,
        y,
        source.width,
        source.height,
        x,
        y,
    );
}

/// A picture is neither turned nor mirrored: as its column or its row moves on, what is read never
/// moves back, and its first pixel is the first of the source.
pub proof fn a_picture_keeps_its_orientation(
    source: Source,
    x: int,
    y: int,
    further_x: int,
    further_y: int,
    across: int,
    down: int,
)
    requires
        source.width >= 1,
        source.height >= 1,
        source.stride >= 1,
        source.rows() >= 1,
        0 <= x <= further_x < across,
        0 <= y <= further_y < down,
    ensures
        source.at(0, 0, across, down) == 0,
        source.at(x, y, across, down) <= source.at(further_x, y, across, down),
        source.at(x, y, across, down) <= source.at(x, further_y, across, down),
        source.at(x, y, across, down) == source.at(x, 0, across, down) + source.at(
            0,
            y,
            across,
            down,
        ),
{
    let (w, h, stride) = (source.width, source.height, source.stride);
    let rows = source.rows();
    assert(0 * w / across == 0 && 0 * h / down == 0) by (nonlinear_arith)
        requires
            across >= 1,
            down >= 1,
    ;
    assert(0 <= x * w / across <= further_x * w / across) by (nonlinear_arith)
        requires
            0 <= x <= further_x,
            w >= 1,
            across >= 1,
    ;
    assert(0 <= y * h / down <= further_y * h / down) by (nonlinear_arith)
        requires
            0 <= y <= further_y,
            h >= 1,
            down >= 1,
    ;
    let row = least(y * h / down, rows - 1);
    let further_row = least(further_y * h / down, rows - 1);
    assert(row * stride <= further_row * stride) by (nonlinear_arith)
        requires
            row <= further_row,
            stride >= 1,
    ;
    assert(0 * stride == 0);
}

/// Luma is that of BT.709 in video range, to the nearest step: the weighted sum of the three
/// colours, stretched to the 219 steps above 16.
pub proof fn luma_is_that_of_bt_709(r: u8, g: u8, b: u8)
    ensures
        ({
            let exact = 219 * (2126 * r + 7152 * g + 722 * b);
            let shown = 2_550_000 * (spec_luma((r, g, b)) - 16);
            -2_550_000 < shown - exact < 2_550_000
        }),
{
}

/// The chroma of one colour is that of BT.709 in video range, to less than two steps: how far
/// blue, or red, is from the luma, stretched to the 224 steps around 128.
pub proof fn chroma_is_that_of_bt_709(r: u8, g: u8, b: u8)
    ensures
        ({
            let rgb = (r, g, b);
            let luma = 2126 * r + 7152 * g + 722 * b;
            let blue = chroma(4 * spec_blue_difference(rgb)) - 128;
            let red = chroma(4 * spec_red_difference(rgb)) - 128;
            // Blue less luma over 1.8556, and red less luma over 1.5748, times 224 over 255.
            &&& -9_463_560 < 4_731_780 * blue - 224 * (10000 * b - luma) < 9_463_560
            &&& -8_031_480 < 4_015_740 * red - 224 * (10000 * r - luma) < 8_031_480
        }),
{
    let rgb = (r, g, b);
    let blue = spec_blue_difference(rgb);
    let red = spec_red_difference(rgb);
    assert(256 * blue <= -26 * r - 87 * g + 112 * b + 128 < 256 * blue + 256);
    assert(256 * red <= 112 * r - 102 * g - 10 * b + 128 < 256 * red + 256);
    assert(-114 < blue < 113 && -114 < red < 113);
    assert(quarter(4 * blue + 2) == if blue >= 0 {
        blue
    } else {
        blue + 1
    });
    assert(quarter(4 * red + 2) == if red >= 0 {
        red
    } else {
        red + 1
    });
}

/// The chroma of four pixels is their mean, no further from it than rounding takes it: half a step
/// up where there is as much colour or more, and less than a step and a half where there is less.
pub proof fn chroma_is_the_mean(sum: int)
    requires
        -448 <= sum <= 448,
    ensures
        -2 < 4 * (chroma(sum) - 128) - sum < 6,
        sum >= 0 ==> 4 * (chroma(sum) - 128) - sum <= 2,
{
}

/// One picture as three planes, with no padding at the end of any row.
///
/// The buffers are allocated once, when the picture is made, and written into again for every
/// frame after it. A picture of a different size is a different `I420`.
#[derive(Clone, PartialEq, Eq)]
pub struct I420 {
    width: u32,
    height: u32,
    y: Vec<u8>,
    u: Vec<u8>,
    v: Vec<u8>,
}

/// A size rounded down to even, and at least two.
pub open spec fn even(size: u32) -> int {
    at_least(size as int, 2) / 2 * 2
}

impl I420 {
    /// The picture's width.
    pub closed spec fn spec_width(&self) -> int {
        self.width as int
    }

    /// The picture's height.
    pub closed spec fn spec_height(&self) -> int {
        self.height as int
    }

    /// The luma plane.
    pub closed spec fn luma_plane(&self) -> Seq<u8> {
        self.y@
    }

    /// The blue-difference plane.
    pub closed spec fn blue_plane(&self) -> Seq<u8> {
        self.u@
    }

    /// The red-difference plane.
    pub closed spec fn red_plane(&self) -> Seq<u8> {
        self.v@
    }

    /// Whether the size is even and the planes are as large as it says.
    pub open spec fn wf(&self) -> bool {
        &&& 2 <= self.spec_width() <= u32::MAX && self.spec_width() % 2 == 0
        &&& 2 <= self.spec_height() <= u32::MAX && self.spec_height() % 2 == 0
        &&& self.luma_plane().len() == self.spec_width() * self.spec_height()
        &&& self.blue_plane().len() == (self.spec_width() / 2) * (self.spec_height() / 2)
        &&& self.red_plane().len() == self.blue_plane().len()
    }

    /// Whether the picture is that of an image, scaled to its own size: the luma of every pixel,
    /// and the chroma of every two by two block.
    pub open spec fn shows(&self, image: Source) -> bool {
        let (w, h) = (self.spec_width(), self.spec_height());
        &&& forall|i: int|
            0 <= i < w * h ==> #[trigger] self.luma_plane()[i] == spec_luma(
                image.colour(i % w, i / w, w, h),
            )
        &&& forall|i: int|
            0 <= i < (w / 2) * (h / 2) ==> #[trigger] self.blue_plane()[i] == chroma(
                image.blue_sum(i % (w / 2) * 2, i / (w / 2) * 2, w, h),
            )
        &&& forall|i: int|
            0 <= i < (w / 2) * (h / 2) ==> #[trigger] self.red_plane()[i] == chroma(
                image.red_sum(i % (w / 2) * 2, i / (w / 2) * 2, w, h),
            )
    }

    /// Makes a black picture of the given size, rounded down to even.
    ///
    /// Even because chroma covers two pixels in each direction, and a picture with half a chroma
    /// sample at its edge is one no encoder takes.
    #[must_use]
    pub fn new(width: u32, height: u32) -> (picture: Self)
        requires
            even(width) * even(height) <= usize::MAX,
        ensures
            picture.wf(),
            picture.spec_width() == even(width),
            picture.spec_height() == even(height),
            forall|i: int|
                0 <= i < picture.luma_plane().len() ==> #[trigger] picture.luma_plane()[i] == 16,
            forall|i: int|
                0 <= i < picture.blue_plane().len() ==> #[trigger] picture.blue_plane()[i] == 128,
            forall|i: int|
                0 <= i < picture.red_plane().len() ==> #[trigger] picture.red_plane()[i] == 128,
    {
        let width: u32 = if width < 2 {
            2
        } else {
            width / 2 * 2
        };
        let height: u32 = if height < 2 {
            2
        } else {
            height / 2 * 2
        };
        let luma: usize = width as usize * height as usize;
        let ghost w = width as int / 2;
        let ghost h = height as int / 2;
        assert(luma as int / 4 == w * h) by (nonlinear_arith)
            requires
                luma == width * height,
                width == 2 * w,
                height == 2 * h,
        ;
        I420 { width, height, y: vec![16; luma], u: vec![128; luma / 4], v: vec![128; luma / 4] }
    }

    /// The picture's width in pixels.
    #[must_use]
    pub fn width(&self) -> (width: u32)
        ensures
            width == self.spec_width(),
    {
        self.width
    }

    /// The picture's height in pixels.
    #[must_use]
    pub fn height(&self) -> (height: u32)
        ensures
            height == self.spec_height(),
    {
        self.height
    }

    /// The luma plane, one byte a pixel, `width` bytes a row.
    #[must_use]
    pub fn y(&self) -> (plane: &[u8])
        ensures
            plane@ == self.luma_plane(),
    {
        self.y.as_slice()
    }

    /// The blue-difference plane, one byte for every two by two pixels.
    #[must_use]
    pub fn u(&self) -> (plane: &[u8])
        ensures
            plane@ == self.blue_plane(),
    {
        self.u.as_slice()
    }

    /// The red-difference plane, laid out like [`Self::u`].
    #[must_use]
    pub fn v(&self) -> (plane: &[u8])
        ensures
            plane@ == self.red_plane(),
    {
        self.v.as_slice()
    }

    /// All three planes, to be written into.
    pub fn planes_mut(&mut self) -> (planes: (&mut [u8], &mut [u8], &mut [u8]))
        ensures
            planes.0@ == old(self).luma_plane(),
            planes.1@ == old(self).blue_plane(),
            planes.2@ == old(self).red_plane(),
            final(self).luma_plane() == final(planes.0)@,
            final(self).blue_plane() == final(planes.1)@,
            final(self).red_plane() == final(planes.2)@,
            final(self).spec_width() == old(self).spec_width(),
            final(self).spec_height() == old(self).spec_height(),
    {
        (self.y.as_mut_slice(), self.u.as_mut_slice(), self.v.as_mut_slice())
    }

    /// Fills the picture from a four-byte-a-pixel image, scaling it to fit.
    ///
    /// The source may be any size; it is sampled to this picture's own, nearest pixel for luma
    /// and the average of each two by two block for chroma. Nearest rather than filtered because
    /// this runs on the processor for every frame and a desktop is text and edges, which a
    /// filter blurs, and because the common case is no scaling at all, where the two agree.
    ///
    /// A source shorter than `stride * height` is a frame that arrived torn, and only the rows
    /// it holds are read. One with nothing to read leaves the picture as it was.
    pub fn fill_from(
        &mut self,
        source: &[u8],
        stride: usize,
        width: u32,
        height: u32,
        order: PixelOrder,
    )
        requires
            old(self).wf(),
            ({
                let image = Source {
                    bytes: source@,
                    stride: stride as int,
                    width: at_least(width as int, 1),
                    height: at_least(height as int, 1),
                    order,
                };
                image.usable() ==> order.in_pixel() || image.covers(
                    old(self).spec_width(),
                    old(self).spec_height(),
                )
            }),
        ensures
            final(self).wf(),
            final(self).spec_width() == old(self).spec_width(),
            final(self).spec_height() == old(self).spec_height(),
            ({
                let image = Source {
                    bytes: source@,
                    stride: stride as int,
                    width: at_least(width as int, 1),
                    height: at_least(height as int, 1),
                    order,
                };
                if image.usable() {
                    final(self).shows(image)
                } else {
                    *final(self) == *old(self)
                }
            }),
    {
        let source_width: usize = if width < 1 {
            1
        } else {
            width as usize
        };
        let source_height: usize = if height < 1 {
            1
        } else {
            height as usize
        };
        let ghost image = Source {
            bytes: source@,
            stride: stride as int,
            width: source_width as int,
            height: source_height as int,
            order,
        };
        let step: usize = if stride < 1 {
            1
        } else {
            stride
        };
        let whole: usize = source.len() / step;
        let rows: usize = if whole <= source_height {
            whole
        } else {
            source_height
        };
        if rows == 0 || (stride as u128) < source_width as u128 * 4 {
            return ;
        }
        proof {
            if order.in_pixel() {
                a_usable_source_covers_every_picture(
                    image,
                    self.spec_width(),
                    self.spec_height(),
                );
            }
        }
        let reader = Reader {
            source,
            stride,
            width: source_width,
            height: source_height,
            rows,
            order,
            across: self.width as usize,
            down: self.height as usize,
        };
        reader.fill_luma(&mut self.y);
        reader.fill_chroma(&mut self.u, &mut self.v);
    }
}

/// A picture of an image of its own size holds every pixel of it in its place: the luma of the
/// pixel in column `x` and row `y` stands `y` rows of the plane down and `x` along, and the chroma
/// of the two by two pixels it is one of stands half as far down and half as far along.
pub proof fn a_picture_holds_every_pixel_in_its_place(
    picture: I420,
    image: Source,
    x: int,
    y: int,
)
    requires
        picture.wf(),
        picture.shows(image),
        image.width == picture.spec_width(),
        image.height == picture.spec_height(),
        image.stride >= 1,
        image.bytes.len() >= image.stride * image.height,
        0 <= x < picture.spec_width(),
        0 <= y < picture.spec_height(),
    ensures
        ({
            let w = picture.spec_width();
            let (c, r) = (x / 2, y / 2);
            let a = pixel_at(image.bytes, image.stride, image.order, 2 * c, 2 * r);
            let b = pixel_at(image.bytes, image.stride, image.order, 2 * c + 1, 2 * r);
            let d = pixel_at(image.bytes, image.stride, image.order, 2 * c, 2 * r + 1);
            let e = pixel_at(image.bytes, image.stride, image.order, 2 * c + 1, 2 * r + 1);
            &&& picture.luma_plane()[y * w + x] == spec_luma(
                pixel_at(image.bytes, image.stride, image.order, x, y),
            )
            &&& picture.blue_plane()[r * (w / 2) + c] == chroma(
                spec_blue_difference(a) + spec_blue_difference(b) + spec_blue_difference(d)
                    + spec_blue_difference(e),
            )
            &&& picture.red_plane()[r * (w / 2) + c] == chroma(
                spec_red_difference(a) + spec_red_difference(b) + spec_red_difference(d)
                    + spec_red_difference(e),
            )
        }),
{
    let (w, h) = (picture.spec_width(), picture.spec_height());
    let (c, r) = (x / 2, y / 2);
    lemma_place(y * w + x, y, x, w);
    lemma_place(r * (w / 2) + c, r, c, w / 2);
    lemma_inside(x, y, w, h);
    lemma_inside(c, r, w / 2, h / 2);
    a_picture_of_its_own_size_is_read_as_it_is(image, x, y);
    a_picture_of_its_own_size_is_read_as_it_is(image, 2 * c, 2 * r);
    a_picture_of_its_own_size_is_read_as_it_is(image, 2 * c + 1, 2 * r);
    a_picture_of_its_own_size_is_read_as_it_is(image, 2 * c, 2 * r + 1);
    a_picture_of_its_own_size_is_read_as_it_is(image, 2 * c + 1, 2 * r + 1);
    assert(picture.luma_plane()[y * w + x] == spec_luma(image.colour(x, y, w, h)));
    assert(picture.blue_plane()[r * (w / 2) + c] == chroma(image.blue_sum(c * 2, r * 2, w, h)));
    assert(picture.red_plane()[r * (w / 2) + c] == chroma(image.red_sum(c * 2, r * 2, w, h)));
}

/// A place that is inside in both directions is inside the plane.
proof fn lemma_inside(x: int, y: int, across: int, down: int)
    requires
        0 <= x < across,
        0 <= y < down,
    ensures
        0 <= y * across + x < across * down,
{
    assert(0 <= y * across + x < across * down) by (nonlinear_arith)
        requires
            0 <= x < across,
            0 <= y <= down - 1,
    ;
}

/// A source and the picture it is read for.
struct Reader<'a> {
    source: &'a [u8],
    stride: usize,
    width: usize,
    height: usize,
    rows: usize,
    order: PixelOrder,
    across: usize,
    down: usize,
}

impl<'a> Reader<'a> {
    /// The source as the contracts see it.
    spec fn image(&self) -> Source {
        Source {
            bytes: self.source@,
            stride: self.stride as int,
            width: self.width as int,
            height: self.height as int,
            order: self.order,
        }
    }

    /// Whether everything the picture asks for can be read.
    spec fn wf(&self) -> bool {
        &&& 1 <= self.width <= u32::MAX && 1 <= self.height <= u32::MAX
        &&& 2 <= self.across <= u32::MAX && self.across % 2 == 0
        &&& 2 <= self.down <= u32::MAX && self.down % 2 == 0
        &&& self.rows == self.image().rows()
        &&& self.image().usable()
        &&& self.image().covers(self.across as int, self.down as int)
    }

    /// Reads the pixel nearest to (`x`, `y`) of the picture.
    fn sample(&self, x: usize, y: usize) -> (rgb: (u8, u8, u8))
        requires
            self.wf(),
            x < self.across,
            y < self.down,
        ensures
            rgb == self.image().colour(x as int, y as int, self.across as int, self.down as int),
    {
        let sx: usize = nearest(x, self.width, self.across, self.width);
        let sy: usize = nearest(y, self.height, self.down, self.rows);
        let ghost at = self.image().at(x as int, y as int, self.across as int, self.down as int);
        proof {
            assert(at == sy * self.stride + sx * 4);
            assert(at + self.order.red < self.source@.len());
            assert(self.source.len() == self.source@.len());
            assert(0 <= sy * self.stride && 0 <= sx * 4) by (nonlinear_arith)
                requires
                    sy >= 0,
                    sx >= 0,
                    self.stride >= 0,
            ;
        }
        let at: usize = sy * self.stride + sx * 4;
        (
            self.source[at + self.order.red],
            self.source[at + self.order.green],
            self.source[at + self.order.blue],
        )
    }

    /// Fills the luma plane.
    fn fill_luma(&self, plane: &mut Vec<u8>)
        requires
            self.wf(),
            old(plane)@.len() == self.across * self.down,
        ensures
            final(plane)@.len() == old(plane)@.len(),
            forall|i: int|
                0 <= i < self.across * self.down ==> #[trigger] final(plane)@[i] == spec_luma(
                    self.image().colour(
                        i % self.across as int,
                        i / self.across as int,
                        self.across as int,
                        self.down as int,
                    ),
                ),
    {
        let mut row: usize = 0;
        let mut column: usize = 0;
        let mut i: usize = 0;
        let len: usize = plane.len();
        while i < len
            invariant
                self.wf(),
                len == self.across * self.down,
                plane@.len() == len,
                i <= len,
                column < self.across,
                i == row * self.across + column,
                forall|j: int|
                    0 <= j < i ==> #[trigger] plane@[j] == spec_luma(
                        self.image().colour(
                            j % self.across as int,
                            j / self.across as int,
                            self.across as int,
                            self.down as int,
                        ),
                    ),
            decreases len - i,
        {
            proof {
                lemma_place(i as int, row as int, column as int, self.across as int);
                assert(row < self.down) by (nonlinear_arith)
                    requires
                        row * self.across + column < self.across * self.down,
                        column >= 0,
                        self.across > 0,
                ;
            }
            let rgb: (u8, u8, u8) = self.sample(column, row);
            plane.set(i, luma(rgb));
            i = i + 1;
            column = column + 1;
            if column == self.across {
                assert((row + 1) * self.across == row * self.across + self.across)
                    by (nonlinear_arith);
                column = 0;
                row = row + 1;
            }
        }
    }

    /// Fills the two chroma planes.
    fn fill_chroma(&self, blue: &mut Vec<u8>, red: &mut Vec<u8>)
        requires
            self.wf(),
            old(blue)@.len() == (self.across as int / 2) * (self.down as int / 2),
            old(red)@.len() == old(blue)@.len(),
        ensures
            final(blue)@.len() == old(blue)@.len(),
            final(red)@.len() == old(red)@.len(),
            ({
                let (w, h) = (self.across as int, self.down as int);
                &&& forall|i: int|
                    0 <= i < (w / 2) * (h / 2) ==> #[trigger] final(blue)@[i] == chroma(
                        self.image().blue_sum(i % (w / 2) * 2, i / (w / 2) * 2, w, h),
                    )
                &&& forall|i: int|
                    0 <= i < (w / 2) * (h / 2) ==> #[trigger] final(red)@[i] == chroma(
                        self.image().red_sum(i % (w / 2) * 2, i / (w / 2) * 2, w, h),
                    )
            }),
    {
        let half: usize = self.across / 2;
        let mut row: usize = 0;
        let mut column: usize = 0;
        let mut i: usize = 0;
        let len: usize = blue.len();
        while i < len
            invariant
                self.wf(),
                half == self.across / 2,
                len == half * (self.down as int / 2),
                blue@.len() == len,
                red@.len() == len,
                i <= len,
                column < half,
                i == row * half + column,
                forall|j: int|
                    0 <= j < i ==> #[trigger] blue@[j] == chroma(
                        self.image().blue_sum(
                            j % half as int * 2,
                            j / half as int * 2,
                            self.across as int,
                            self.down as int,
                        ),
                    ),
                forall|j: int|
                    0 <= j < i ==> #[trigger] red@[j] == chroma(
                        self.image().red_sum(
                            j % half as int * 2,
                            j / half as int * 2,
                            self.across as int,
                            self.down as int,
                        ),
                    ),
            decreases len - i,
        {
            proof {
                lemma_place(i as int, row as int, column as int, half as int);
                let h = self.down as int / 2;
                assert(row < h) by (nonlinear_arith)
                    requires
                        row * half + column < half * h,
                        column >= 0,
                        half > 0,
                ;
            }
            let x: usize = column * 2;
            let y: usize = row * 2;
            let a: (u8, u8, u8) = self.sample(x, y);
            let b: (u8, u8, u8) = self.sample(x + 1, y);
            let c: (u8, u8, u8) = self.sample(x, y + 1);
            let d: (u8, u8, u8) = self.sample(x + 1, y + 1);
            let blue_sum: i32 = blue_difference(a) + blue_difference(b) + blue_difference(c)
                + blue_difference(d);
            let red_sum: i32 = red_difference(a) + red_difference(b) + red_difference(c)
                + red_difference(d);
            blue.set(i, averaged(blue_sum));
            red.set(i, averaged(red_sum));
            i = i + 1;
            column = column + 1;
            if column == half {
                assert((row + 1) * half == row * half + half) by (nonlinear_arith);
                column = 0;
                row = row + 1;
            }
        }
    }
}

/// Where a place in a plane is, in rows and columns.
proof fn lemma_place(i: int, row: int, column: int, across: int)
    requires
        i == row * across + column,
        0 <= column < across,
        0 <= row,
    ensures
        i / across == row,
        i % across == column,
{
    vstd::arithmetic::div_mod::lemma_fundamental_div_mod_converse(i, across, row, column);
}

/// Returns the place among `from` that is nearest to `x` among `to`, and is one of the first
/// `limit`.
fn nearest(x: usize, from: usize, to: usize, limit: usize) -> (place: usize)
    requires
        x < to <= u32::MAX,
        1 <= from <= u32::MAX,
        limit >= 1,
    ensures
        place == least(x * from / (to as int), limit - 1),
{
    assert(x * from < 0x1_0000_0000 * 0x1_0000_0000) by (nonlinear_arith)
        requires
            x < 0x1_0000_0000,
            from < 0x1_0000_0000,
    ;
    assert(x * from / (to as int) <= from) by (nonlinear_arith)
        requires
            0 <= x < to,
            from >= 0,
    ;
    let scaled: u64 = x as u64 * from as u64 / to as u64;
    if scaled <= (limit - 1) as u64 {
        scaled as usize
    } else {
        limit - 1
    }
}

/// Returns `n` divided by 256, rounded down.
fn down_256(n: i32) -> (result: i32)
    requires
        n > -0x4000_0000,
    ensures
        result == n as int / 256,
{
    if n >= 0 {
        n / 256
    } else {
        -((-n + 255) / 256)
    }
}

/// BT.709 luma, video range, from gamma-encoded red, green and blue.
fn luma(rgb: (u8, u8, u8)) -> (y: u8)
    ensures
        y == spec_luma(rgb),
{
    let (r, g, b) = (rgb.0 as i32, rgb.1 as i32, rgb.2 as i32);
    clamp(down_256(47 * r + 157 * g + 16 * b + 128) + 16)
}

/// BT.709 blue difference, video range, centred on zero.
fn blue_difference(rgb: (u8, u8, u8)) -> (difference: i32)
    ensures
        difference == spec_blue_difference(rgb),
        -1000 < difference < 1000,
{
    let (r, g, b) = (rgb.0 as i32, rgb.1 as i32, rgb.2 as i32);
    down_256(-26 * r - 87 * g + 112 * b + 128)
}

/// BT.709 red difference, video range, centred on zero.
fn red_difference(rgb: (u8, u8, u8)) -> (difference: i32)
    ensures
        difference == spec_red_difference(rgb),
        -1000 < difference < 1000,
{
    let (r, g, b) = (rgb.0 as i32, rgb.1 as i32, rgb.2 as i32);
    down_256(112 * r - 102 * g - 10 * b + 128)
}

/// The chroma sample of four pixels, whose differences add up to `sum`.
fn averaged(sum: i32) -> (sample: u8)
    requires
        -4000 < sum < 4000,
    ensures
        sample == chroma(sum as int),
{
    let rounded: i32 = sum + 2;
    let mean: i32 = if rounded >= 0 {
        rounded / 4
    } else {
        -((-rounded) / 4)
    };
    clamp(mean + 128)
}

/// Keeps a sample inside a byte.
fn clamp(value: i32) -> (byte: u8)
    ensures
        byte == byte_of(value as int),
{
    if value < 0 {
        0
    } else if value > 255 {
        255
    } else {
        value as u8
    }
}

} // verus!
