//! The output image: a grid of 8-bit RGB pixels held in an `image::RgbImage`.
use image::{Rgb, RgbImage};
use vstd::prelude::*;

verus! {

/// An `image::RgbImage`, seen through the names below. Verus does not accept
/// the image crate's `ImageBuffer` as a declared type, since its parameters are
/// bound by the crate's own traits.
#[verifier::external_body]
pub struct PixelBuffer {
    img: RgbImage,
}

/// The samples of a pixel buffer, three per pixel, row after row.
pub uninterp spec fn buffer_samples(b: PixelBuffer) -> Seq<u8>;

/// The width and height of a pixel buffer.
pub uninterp spec fn buffer_dimensions(b: PixelBuffer) -> (u32, u32);

/// Relies on `image::ImageBuffer::new`: a black image of the given size, whose
/// buffer holds three zero samples per pixel.
#[verifier::external_body]
fn new_buffer(width: u32, height: u32) -> (r: PixelBuffer)
    requires
        3 * width * height <= isize::MAX,
    ensures
        buffer_dimensions(r) == (width, height),
        buffer_samples(r) == Seq::new((3 * width * height) as nat, |i: int| 0u8),
{
    PixelBuffer { img: RgbImage::new(width, height) }
}

/// Relies on `image::ImageBuffer::put_pixel`: it overwrites the three samples of
/// pixel `(x, y)`, which start at `3 * (y * width + x)`.
#[verifier::external_body]
fn put_rgb(b: &mut PixelBuffer, x: u32, y: u32, rgb: [u8; 3])
    requires
        x < buffer_dimensions(*old(b)).0,
        y < buffer_dimensions(*old(b)).1,
    ensures
        buffer_dimensions(*final(b)) == buffer_dimensions(*old(b)),
        buffer_samples(*final(b)) == ({
            let i = 3 * (y * buffer_dimensions(*old(b)).0 + x);
            buffer_samples(*old(b)).update(i, rgb[0]).update(i + 1, rgb[1]).update(i + 2, rgb[2])
        }),
{
    b.img.put_pixel(x, y, Rgb(rgb));
}

/// Relies on `image::ImageBuffer::get_pixel`: the three samples of pixel
/// `(x, y)`, which start at `3 * (y * width + x)`.
#[verifier::external_body]
fn get_rgb(b: &PixelBuffer, x: u32, y: u32) -> (r: [u8; 3])
    requires
        x < buffer_dimensions(*b).0,
        y < buffer_dimensions(*b).1,
    ensures
        r@ == buffer_samples(*b).subrange(
            3 * (y * buffer_dimensions(*b).0 + x),
            3 * (y * buffer_dimensions(*b).0 + x) + 3,
        ),
{
    b.img.get_pixel(x, y).0
}

/// Relies on `image::ImageBuffer::dimensions`: the width and the height.
#[verifier::external_body]
fn dimensions(b: &PixelBuffer) -> (r: (u32, u32))
    ensures
        r == buffer_dimensions(*b),
{
    b.img.dimensions()
}

/// Relies on `image::ImageBuffer::as_raw`: the buffer's samples.
#[verifier::external_body]
fn raw_samples(b: &PixelBuffer) -> (r: Vec<u8>)
    ensures
        r@ == buffer_samples(*b),
{
    b.img.as_raw().clone()
}

/// The offset in the samples of pixel `(x, y)` of an image `width` pixels wide.
pub open spec fn pixel_offset(width: nat, x: int, y: int) -> int {
    3 * (y * width + x)
}

proof fn lemma_pixel_offsets(width: nat, height: nat, x: int, y: int, x2: int, y2: int)
    requires
        0 <= x < width,
        0 <= y < height,
        0 <= x2 < width,
        0 <= y2 < height,
    ensures
        0 <= pixel_offset(width, x, y),
        pixel_offset(width, x, y) + 3 <= 3 * width * height,
        x != x2 || y != y2 ==> pixel_offset(width, x2, y2) + 3 <= pixel_offset(width, x, y)
            || pixel_offset(width, x, y) + 3 <= pixel_offset(width, x2, y2),
{
    assert(0 <= y * width + x) by (nonlinear_arith)
        requires
            0 <= x,
            0 <= y,
            0 <= width,
    ;
    assert(y * width + x + 1 <= width * height) by (nonlinear_arith)
        requires
            0 <= x < width,
            0 <= y < height,
    ;
    assert(3 * (y * width + x) + 3 <= 3 * width * height) by (nonlinear_arith)
        requires
            y * width + x + 1 <= width * height,
    ;
    if x != x2 || y != y2 {
        assert(y * width + x != y2 * width + x2) by (nonlinear_arith)
            requires
                0 <= x < width,
                0 <= x2 < width,
                0 <= y,
                0 <= y2,
                x != x2 || y != y2,
        {
            if y < y2 {
                assert(y * width + width <= y2 * width);
            } else if y2 < y {
                assert(y2 * width + width <= y * width);
            }
        }
    }
}

/// The image row of scanline `j` in an image `height` rows high: scanlines are
/// counted from the bottom, image rows from the top.
pub open spec fn scanline_row(height: nat, j: int) -> int {
    height - 1 - j
}

/// `after` is `before` with scanline `j` set to the colors of `row`, left to
/// right, and every other pixel kept.
pub open spec fn scanline_written(before: ImageOutput, after: ImageOutput, j: int, row: Seq<[u8; 3]>) -> bool {
    &&& after.wf()
    &&& after.width_spec() == before.width_spec()
    &&& after.height_spec() == before.height_spec()
    &&& after.samples_per_pixel_spec() == before.samples_per_pixel_spec()
    &&& forall|x: int|
        0 <= x < before.width_spec() ==> #[trigger] after.pixel_spec(x, scanline_row(before.height_spec(), j))
            == row[x]@
    &&& forall|x: int, y: int|
        0 <= x < before.width_spec() && 0 <= y < before.height_spec() && y != scanline_row(
            before.height_spec(),
            j,
        ) ==> #[trigger] after.pixel_spec(x, y) == before.pixel_spec(x, y)
}

/// Scanlines may be delivered in any order: writing two different scanlines
/// into an image gives the same picture whichever of them comes first.
pub proof fn lemma_scanlines_commute(
    img: ImageOutput,
    a_first: ImageOutput,
    a_then_b: ImageOutput,
    b_first: ImageOutput,
    b_then_a: ImageOutput,
    a: int,
    row_a: Seq<[u8; 3]>,
    b: int,
    row_b: Seq<[u8; 3]>,
)
    requires
        0 <= a < img.height_spec(),
        0 <= b < img.height_spec(),
        a != b,
        scanline_written(img, a_first, a, row_a),
        scanline_written(a_first, a_then_b, b, row_b),
        scanline_written(img, b_first, b, row_b),
        scanline_written(b_first, b_then_a, a, row_a),
    ensures
        a_then_b.same_pixels(&b_then_a),
{
    let h = img.height_spec();
    assert forall|x: int, y: int|
        0 <= x < a_then_b.width_spec() && 0 <= y < a_then_b.height_spec() implies #[trigger] a_then_b.pixel_spec(
        x,
        y,
    ) == b_then_a.pixel_spec(x, y) by {
        if y == scanline_row(h, a) {
            assert(a_then_b.pixel_spec(x, y) == a_first.pixel_spec(x, y));
        } else if y == scanline_row(h, b) {
            assert(b_then_a.pixel_spec(x, y) == b_first.pixel_spec(x, y));
        } else {
            assert(a_then_b.pixel_spec(x, y) == a_first.pixel_spec(x, y));
            assert(b_then_a.pixel_spec(x, y) == b_first.pixel_spec(x, y));
        }
    }
}

/// The rendered picture: `width` by `height` pixels, row `0` at the top, and the
/// number of samples that each pixel's color was averaged over.
pub struct ImageOutput {
    buffer: PixelBuffer,
    samples_per_pixel: u32,
}

impl ImageOutput {
    pub closed spec fn width_spec(&self) -> nat {
        buffer_dimensions(self.buffer).0 as nat
    }

    pub closed spec fn height_spec(&self) -> nat {
        buffer_dimensions(self.buffer).1 as nat
    }

    pub closed spec fn samples_per_pixel_spec(&self) -> u32 {
        self.samples_per_pixel
    }

    /// The red, green and blue samples of pixel `(x, y)`.
    pub closed spec fn pixel_spec(&self, x: int, y: int) -> Seq<u8> {
        let o = pixel_offset(self.width_spec(), x, y);
        buffer_samples(self.buffer).subrange(o, o + 3)
    }

    pub closed spec fn wf(&self) -> bool {
        &&& buffer_samples(self.buffer).len() == 3 * self.width_spec() * self.height_spec()
        &&& 3 * self.width_spec() * self.height_spec() <= isize::MAX
    }

    /// `self` and `other` have the same size and the same pixels.
    pub open spec fn same_pixels(&self, other: &ImageOutput) -> bool {
        &&& self.width_spec() == other.width_spec()
        &&& self.height_spec() == other.height_spec()
        &&& forall|x: int, y: int|
            0 <= x < self.width_spec() && 0 <= y < self.height_spec() ==> #[trigger] self.pixel_spec(
                x,
                y,
            ) == other.pixel_spec(x, y)
    }

    /// A black image of `width` by `height` pixels.
    pub fn new(width: u32, height: u32, samples_per_pixel: u32) -> (r: ImageOutput)
        requires
            3 * width * height <= isize::MAX,
        ensures
            r.wf(),
            r.width_spec() == width,
            r.height_spec() == height,
            r.samples_per_pixel_spec() == samples_per_pixel,
            forall|x: int, y: int|
                0 <= x < width && 0 <= y < height ==> #[trigger] r.pixel_spec(x, y) == seq![0u8, 0u8, 0u8],
    {
        let r = ImageOutput { buffer: new_buffer(width, height), samples_per_pixel };
        assert forall|x: int, y: int| 0 <= x < width && 0 <= y < height implies #[trigger] r.pixel_spec(
            x,
            y,
        ) == seq![0u8, 0u8, 0u8] by {
            lemma_pixel_offsets(width as nat, height as nat, x, y, x, y);
            assert(r.pixel_spec(x, y) =~= seq![0u8, 0u8, 0u8]);
        }
        r
    }

    pub fn width(&self) -> (r: u32)
        ensures
            r == self.width_spec(),
    {
        dimensions(&self.buffer).0
    }

    pub fn height(&self) -> (r: u32)
        ensures
            r == self.height_spec(),
    {
        dimensions(&self.buffer).1
    }

    pub fn samples_per_pixel(&self) -> (r: u32)
        ensures
            r == self.samples_per_pixel_spec(),
    {
        self.samples_per_pixel
    }

    /// Sets pixel `(x, y)` to the 8-bit color `rgb`; every other pixel keeps its
    /// color.
    pub fn put_pixel_color(&mut self, x: u32, y: u32, rgb: [u8; 3])
        requires
            old(self).wf(),
            x < old(self).width_spec(),
            y < old(self).height_spec(),
        ensures
            final(self).wf(),
            final(self).width_spec() == old(self).width_spec(),
            final(self).height_spec() == old(self).height_spec(),
            final(self).samples_per_pixel_spec() == old(self).samples_per_pixel_spec(),
            final(self).pixel_spec(x as int, y as int) == rgb@,
            forall|x2: int, y2: int|
                0 <= x2 < old(self).width_spec() && 0 <= y2 < old(self).height_spec() && (x2 != x
                    || y2 != y) ==> #[trigger] final(self).pixel_spec(x2, y2) == old(self).pixel_spec(
                    x2,
                    y2,
                ),
    {
        let ghost before = *self;
        put_rgb(&mut self.buffer, x, y, rgb);
        proof {
            let w = self.width_spec();
            let h = self.height_spec();
            lemma_pixel_offsets(w, h, x as int, y as int, x as int, y as int);
            assert(self.pixel_spec(x as int, y as int) =~= rgb@);
            assert forall|x2: int, y2: int|
                0 <= x2 < w && 0 <= y2 < h && (x2 != x || y2 != y) implies #[trigger] self.pixel_spec(
                x2,
                y2,
            ) == before.pixel_spec(x2, y2) by {
                lemma_pixel_offsets(w, h, x as int, y as int, x2, y2);
                lemma_pixel_offsets(w, h, x2, y2, x2, y2);
                let o2 = pixel_offset(w, x2, y2);
                assert forall|k: int| 0 <= k < 3 implies #[trigger] buffer_samples(self.buffer)[o2 + k]
                    == buffer_samples(before.buffer)[o2 + k] by {}
                assert(self.pixel_spec(x2, y2) =~= before.pixel_spec(x2, y2));
            }
        }
    }

    /// Writes scanline `j` (counted from the bottom) with the colors of `row`,
    /// left to right.
    pub fn put_scanline(&mut self, j: u32, row: &Vec<[u8; 3]>)
        requires
            old(self).wf(),
            j < old(self).height_spec(),
            row@.len() == old(self).width_spec(),
        ensures
            scanline_written(*old(self), *final(self), j as int, row@),
    {
        let ghost before = *self;
        let w = self.width();
        let y = self.height() - 1 - j;
        let mut x: u32 = 0;
        while x < w
            invariant
                x <= w,
                w == before.width_spec(),
                y == scanline_row(before.height_spec(), j as int),
                y < before.height_spec(),
                row@.len() == w,
                self.wf(),
                self.width_spec() == before.width_spec(),
                self.height_spec() == before.height_spec(),
                self.samples_per_pixel_spec() == before.samples_per_pixel_spec(),
                forall|x2: int| 0 <= x2 < x ==> #[trigger] self.pixel_spec(x2, y as int) == row@[x2]@,
                forall|x2: int, y2: int|
                    0 <= x2 < w && 0 <= y2 < before.height_spec() && (y2 != y || x2 >= x)
                        ==> #[trigger] self.pixel_spec(x2, y2) == before.pixel_spec(x2, y2),
            decreases w - x,
        {
            self.put_pixel_color(x, y, row[x as usize]);
            x = x + 1;
        }
    }

    /// The 8-bit color of pixel `(x, y)`.
    pub fn pixel(&self, x: u32, y: u32) -> (r: [u8; 3])
        requires
            self.wf(),
            x < self.width_spec(),
            y < self.height_spec(),
        ensures
            r@ == self.pixel_spec(x as int, y as int),
    {
        get_rgb(&self.buffer, x, y)
    }

    /// The samples of the image, three per pixel (red, green, blue), row after
    /// row from the top.
    pub fn samples(&self) -> (r: Vec<u8>)
        requires
            self.wf(),
        ensures
            r@.len() == 3 * self.width_spec() * self.height_spec(),
            forall|x: int, y: int|
                0 <= x < self.width_spec() && 0 <= y < self.height_spec() ==> r@.subrange(
                    pixel_offset(self.width_spec(), x, y),
                    pixel_offset(self.width_spec(), x, y) + 3,
                ) == #[trigger] self.pixel_spec(x, y),
    {
        raw_samples(&self.buffer)
    }
}

} // verus!
