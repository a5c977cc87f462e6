//! The RGBA and RGB frames the renderer draws on. Each holds an `image`
//! buffer; the library sees a frame as its (width, height) and its sample
//! buffer: row-major order, four samples per pixel for RGBA, three for RGB.

use vstd::prelude::*;

verus! {

/// An RGBA image of 8-bit samples, held in an `image::RgbaImage`.
#[verifier::external_body]
pub struct RgbaFrame {
    img: image::RgbaImage,
}

/// An RGB image of 8-bit samples, held in an `image::RgbImage`.
#[verifier::external_body]
pub struct RgbFrame {
    img: image::RgbImage,
}

/// The sample buffer of an RGBA frame.
pub uninterp spec fn rgba_data(frame: RgbaFrame) -> Seq<u8>;

/// The (width, height) of an RGBA frame.
pub uninterp spec fn rgba_dims(frame: RgbaFrame) -> (u32, u32);

/// The sample buffer of an RGB frame.
pub uninterp spec fn rgb_data(frame: RgbFrame) -> Seq<u8>;

/// The (width, height) of an RGB frame.
pub uninterp spec fn rgb_dims(frame: RgbFrame) -> (u32, u32);

/// Index of the first sample of pixel (x, y) in a buffer of the given width,
/// with `channels` samples per pixel.
pub open spec fn sample_index(width: int, channels: int, x: int, y: int) -> int {
    channels * (y * width + x)
}

/// Whether (x, y) is a pixel of an image of the given dimensions.
pub open spec fn in_image(dims: (u32, u32), x: int, y: int) -> bool {
    0 <= x < dims.0 && 0 <= y < dims.1
}

/// The four samples of pixel (x, y) of an RGBA buffer.
pub open spec fn pixel_at(data: Seq<u8>, width: int, x: int, y: int) -> Seq<u8> {
    let i = sample_index(width, 4, x, y);
    data.subrange(i, i + 4)
}

/// The RGBA buffer with pixel (x, y) set to the four samples of `c`.
pub open spec fn with_pixel(data: Seq<u8>, width: int, x: int, y: int, c: Seq<u8>) -> Seq<u8> {
    let i = sample_index(width, 4, x, y);
    data.update(i, c[0]).update(i + 1, c[1]).update(i + 2, c[2]).update(i + 3, c[3])
}

/// A pixel of an image lies inside its sample buffer, and two different
/// pixels own disjoint runs of samples.
pub proof fn lemma_pixel_offsets(dims: (u32, u32), channels: int, x: int, y: int, x2: int, y2: int)
    requires
        channels > 0,
        in_image(dims, x, y),
        in_image(dims, x2, y2),
    ensures
        0 <= sample_index(dims.0 as int, channels, x, y),
        sample_index(dims.0 as int, channels, x, y) + channels <= channels * dims.0 * dims.1,
        (x != x2 || y != y2) ==> (
            sample_index(dims.0 as int, channels, x, y) + channels <= sample_index(dims.0 as int, channels, x2, y2)
            || sample_index(dims.0 as int, channels, x2, y2) + channels <= sample_index(dims.0 as int, channels, x, y)),
{
    let w = dims.0 as int;
    let h = dims.1 as int;
    assert(0 <= y * w + x) by (nonlinear_arith)
        requires 0 <= x, 0 <= y, 0 <= w;
    assert(y * w + x + 1 <= w * h) by (nonlinear_arith)
        requires 0 <= x < w, 0 <= y < h;
    assert(channels * (y * w + x) + channels <= channels * w * h) by (nonlinear_arith)
        requires y * w + x + 1 <= w * h, channels > 0;
    assert(0 <= channels * (y * w + x)) by (nonlinear_arith)
        requires 0 <= y * w + x, channels > 0;
    if x != x2 || y != y2 {
        let a = y * w + x;
        let b = y2 * w + x2;
        assert(a != b) by (nonlinear_arith)
            requires a == y * w + x, b == y2 * w + x2, 0 <= x < w, 0 <= x2 < w, x != x2 || y != y2;
        if a < b {
            assert(channels * a + channels <= channels * b) by (nonlinear_arith)
                requires a + 1 <= b, channels > 0;
        } else {
            assert(channels * b + channels <= channels * a) by (nonlinear_arith)
                requires b + 1 <= a, channels > 0;
        }
    }
}

/// Setting one pixel leaves the buffer's length and every other pixel as it
/// was, and the pixel itself reads back as the samples written.
pub proof fn lemma_with_pixel(dims: (u32, u32), data: Seq<u8>, x: int, y: int, c: Seq<u8>, x2: int, y2: int)
    requires
        data.len() == 4 * dims.0 * dims.1,
        c.len() == 4,
        in_image(dims, x, y),
        in_image(dims, x2, y2),
    ensures
        with_pixel(data, dims.0 as int, x, y, c).len() == data.len(),
        pixel_at(with_pixel(data, dims.0 as int, x, y, c), dims.0 as int, x2, y2) == if x == x2 && y == y2 {
            c
        } else {
            pixel_at(data, dims.0 as int, x2, y2)
        },
{
    lemma_pixel_offsets(dims, 4, x, y, x2, y2);
    let w = dims.0 as int;
    let d2 = with_pixel(data, w, x, y, c);
    if x == x2 && y == y2 {
        assert(pixel_at(d2, w, x2, y2) =~= c);
    } else {
        let i = sample_index(w, 4, x, y);
        let j = sample_index(w, 4, x2, y2);
        lemma_pixel_offsets(dims, 4, x2, y2, x, y);
        assert forall|k: int| 0 <= k < 4 implies #[trigger] d2[j + k] == data[j + k] by {
            assert(j + k != i && j + k != i + 1 && j + k != i + 2 && j + k != i + 3);
        }
        assert(pixel_at(d2, w, x2, y2) =~= pixel_at(data, w, x2, y2));
    }
}

impl RgbaFrame {
    /// `ImageBuffer::new`: a `width` x `height` image whose samples are all
    /// zero. It panics when `4 * width * height` overflows `usize`, and a
    /// vector holds at most `isize::MAX` bytes.
    #[verifier::external_body]
    fn buffer_new(width: u32, height: u32) -> (frame: RgbaFrame)
        requires
            4 * width * height <= isize::MAX,
        ensures
            rgba_dims(frame) == (width, height),
            rgba_data(frame) == Seq::new((4 * width * height) as nat, |i: int| 0u8),
    {
        RgbaFrame { img: image::RgbaImage::new(width, height) }
    }

    /// `ImageBuffer::dimensions`. A frame is made by `ImageBuffer::new` and
    /// changed only through `put_pixel` (or cloned), so its buffer holds
    /// exactly `4 * width * height` samples.
    #[verifier::external_body]
    fn buffer_dimensions(&self) -> (dims: (u32, u32))
        ensures
            dims == rgba_dims(*self),
            rgba_data(*self).len() == 4 * dims.0 * dims.1,
    {
        self.img.dimensions()
    }

    /// `ImageBuffer::get_pixel`: the four samples of pixel (x, y). It panics
    /// outside the image.
    #[verifier::external_body]
    fn buffer_get_pixel(&self, x: u32, y: u32) -> (c: [u8; 4])
        requires
            in_image(rgba_dims(*self), x as int, y as int),
        ensures
            c@ == pixel_at(rgba_data(*self), rgba_dims(*self).0 as int, x as int, y as int),
    {
        self.img.get_pixel(x, y).0
    }

    /// `ImageBuffer::put_pixel`: overwrites the four samples of pixel (x, y).
    /// It panics outside the image.
    #[verifier::external_body]
    fn buffer_put_pixel(&mut self, x: u32, y: u32, c: [u8; 4])
        requires
            in_image(rgba_dims(*old(self)), x as int, y as int),
        ensures
            rgba_dims(*final(self)) == rgba_dims(*old(self)),
            rgba_data(*final(self)) == with_pixel(
                rgba_data(*old(self)), rgba_dims(*old(self)).0 as int, x as int, y as int, c@),
    {
        self.img.put_pixel(x, y, image::Rgba(c))
    }

    /// `ImageBuffer::as_raw`: the sample buffer.
    #[verifier::external_body]
    fn buffer_as_raw(&self) -> (raw: &Vec<u8>)
        ensures
            raw@ == rgba_data(*self),
    {
        self.img.as_raw()
    }

    /// `ImageBuffer::clone`: an image with the same dimensions and samples.
    #[verifier::external_body]
    fn buffer_clone(&self) -> (copy: RgbaFrame)
        ensures
            rgba_dims(copy) == rgba_dims(*self),
            rgba_data(copy) == rgba_data(*self),
    {
        RgbaFrame { img: self.img.clone() }
    }

    /// A `width` x `height` frame with every sample zero (transparent black).
    pub fn new(width: u32, height: u32) -> (frame: RgbaFrame)
        requires
            4 * width * height <= isize::MAX,
        ensures
            rgba_dims(frame) == (width, height),
            rgba_data(frame) == Seq::new((4 * width * height) as nat, |i: int| 0u8),
    {
        Self::buffer_new(width, height)
    }

    /// The (width, height) of the frame.
    pub fn dimensions(&self) -> (dims: (u32, u32))
        ensures
            dims == rgba_dims(*self),
            rgba_data(*self).len() == 4 * dims.0 * dims.1,
    {
        self.buffer_dimensions()
    }

    /// The RGBA samples of pixel (x, y).
    pub fn get_pixel(&self, x: u32, y: u32) -> (c: [u8; 4])
        requires
            in_image(rgba_dims(*self), x as int, y as int),
        ensures
            c@ == pixel_at(rgba_data(*self), rgba_dims(*self).0 as int, x as int, y as int),
    {
        self.buffer_get_pixel(x, y)
    }

    /// Sets pixel (x, y) to `c`; nothing else changes.
    pub fn put_pixel(&mut self, x: u32, y: u32, c: [u8; 4])
        requires
            in_image(rgba_dims(*old(self)), x as int, y as int),
        ensures
            rgba_dims(*final(self)) == rgba_dims(*old(self)),
            rgba_data(*final(self)) == with_pixel(
                rgba_data(*old(self)), rgba_dims(*old(self)).0 as int, x as int, y as int, c@),
    {
        self.buffer_put_pixel(x, y, c)
    }

    /// The sample buffer, row by row, four samples per pixel.
    pub fn as_raw(&self) -> (raw: &Vec<u8>)
        ensures
            raw@ == rgba_data(*self),
    {
        self.buffer_as_raw()
    }
}

impl Clone for RgbaFrame {
    /// A frame with the same dimensions and samples.
    fn clone(&self) -> (copy: Self)
        ensures
            rgba_dims(copy) == rgba_dims(*self),
            rgba_data(copy) == rgba_data(*self),
    {
        self.buffer_clone()
    }
}

impl RgbFrame {
    /// `ImageBuffer::from_raw`: `None` when `buf` holds fewer than
    /// `3 * width * height` samples (its length check fails on overflow
    /// too), else the image over `buf` itself.
    #[verifier::external_body]
    pub(crate) fn buffer_from_raw(width: u32, height: u32, buf: Vec<u8>) -> (frame: Option<RgbFrame>)
        ensures
            frame is Some <==> 3 * width * height <= buf@.len(),
            frame matches Some(f) ==> rgb_dims(f) == (width, height) && rgb_data(f) == buf@,
    {
        match image::RgbImage::from_raw(width, height, buf) {
            Some(img) => Some(RgbFrame { img }),
            None => None,
        }
    }

    /// `ImageBuffer::as_raw`: the sample buffer.
    #[verifier::external_body]
    fn buffer_as_raw(&self) -> (raw: &Vec<u8>)
        ensures
            raw@ == rgb_data(*self),
    {
        self.img.as_raw()
    }

    /// The sample buffer, row by row, three samples per pixel.
    pub fn as_raw(&self) -> (raw: &Vec<u8>)
        ensures
            raw@ == rgb_data(*self),
    {
        self.buffer_as_raw()
    }
}

} // verus!
