//! Conversion of RGBA frames to RGB, for encoders that take no alpha.

use vstd::prelude::*;
use crate::pixels::{
    RgbaFrame, RgbFrame, rgba_data, rgba_dims, rgb_data, rgb_dims, in_image, pixel_at, sample_index,
    lemma_pixel_offsets,
};

verus! {

/// The samples of an RGBA buffer with each pixel's alpha sample dropped:
/// sample `k` (< 3) of pixel `p` comes from sample `k` of pixel `p`.
pub open spec fn drop_alpha(rgba: Seq<u8>) -> Seq<u8> {
    Seq::new(((rgba.len() / 4) * 3) as nat, |j: int| rgba[(j / 3) * 4 + j % 3])
}

/// The RGB samples of a pixel are the first three RGBA samples of the same
/// pixel.
pub proof fn lemma_drop_alpha_pixel(dims: (u32, u32), rgba: Seq<u8>, x: int, y: int)
    requires
        rgba.len() == 4 * dims.0 * dims.1,
        in_image(dims, x, y),
    ensures
        ({
            let i = sample_index(dims.0 as int, 3, x, y);
            drop_alpha(rgba).subrange(i, i + 3) == pixel_at(rgba, dims.0 as int, x, y).subrange(0, 3)
        }),
{
    let w = dims.0 as int;
    let h = dims.1 as int;
    lemma_pixel_offsets(dims, 3, x, y, x, y);
    lemma_pixel_offsets(dims, 4, x, y, x, y);
    let p = y * w + x;
    let i = sample_index(w, 3, x, y);
    assert(rgba.len() / 4 == w * h) by (nonlinear_arith)
        requires rgba.len() == 4 * w * h, w >= 0, h >= 0;
    assert(3 * w * h == (rgba.len() / 4) * 3) by (nonlinear_arith)
        requires rgba.len() / 4 == w * h;
    assert forall|k: int| 0 <= k < 3 implies #[trigger] drop_alpha(rgba)[i + k] == rgba[4 * p + k] by {
        assert((i + k) / 3 == p && (i + k) % 3 == k);
    }
    assert(drop_alpha(rgba).subrange(i, i + 3) =~= pixel_at(rgba, w, x, y).subrange(0, 3));
}

/// The RGB image with the same dimensions and colours as `input`: each
/// pixel keeps its red, green and blue samples and loses its alpha.
pub fn rgba8_to_rgb8(input: RgbaFrame) -> (output: RgbFrame)
    ensures
        rgb_dims(output) == rgba_dims(input),
        rgb_data(output) == drop_alpha(rgba_data(input)),
        forall|x: int, y: int| #[trigger] in_image(rgba_dims(input), x, y) ==> {
            let i = sample_index(rgba_dims(input).0 as int, 3, x, y);
            rgb_data(output).subrange(i, i + 3) == pixel_at(rgba_data(input), rgba_dims(input).0 as int, x, y).subrange(0, 3)
        },
{
    let (width, height) = input.dimensions();
    let raw: &Vec<u8> = input.as_raw();
    let _ = raw.len();
    proof {
        assert(4 * width * height <= usize::MAX);
        assert(width * height <= usize::MAX) by (nonlinear_arith)
            requires 4 * width * height <= usize::MAX;
        assert(3 * (width * height) == 3 * width * height) by (nonlinear_arith);
        assert(4 * (width * height) == 4 * width * height) by (nonlinear_arith);
    }
    let n: usize = width as usize * height as usize;
    let mut output_data: Vec<u8> = vec![0u8; n * 3];
    let mut p: usize = 0;
    while p < n
        invariant
            p <= n,
            raw@.len() == 4 * n,
            4 * n <= usize::MAX,
            output_data@.len() == 3 * n,
            forall|j: int| 0 <= j < 3 * p ==> #[trigger] output_data@[j] == raw@[(j / 3) * 4 + j % 3],
        decreases n - p,
    {
        let i = 3 * p;
        let r = 4 * p;
        output_data.set(i, raw[r]);
        output_data.set(i + 1, raw[r + 1]);
        output_data.set(i + 2, raw[r + 2]);
        assert forall|j: int| 0 <= j < 3 * (p + 1) implies #[trigger] output_data@[j] == raw@[(j / 3) * 4 + j % 3] by {
            if j >= 3 * p {
                assert(j / 3 == p && j % 3 == j - 3 * p);
            }
        }
        p += 1;
    }
    assert(output_data@ =~= drop_alpha(raw@));
    assert forall|x: int, y: int| #[trigger] in_image(rgba_dims(input), x, y) implies {
        let i = sample_index(rgba_dims(input).0 as int, 3, x, y);
        drop_alpha(raw@).subrange(i, i + 3) == pixel_at(raw@, rgba_dims(input).0 as int, x, y).subrange(0, 3)
    } by {
        lemma_drop_alpha_pixel(rgba_dims(input), raw@, x, y);
    }
    RgbFrame::buffer_from_raw(width, height, output_data).unwrap()
}

} // verus!
