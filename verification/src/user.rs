//! The renderer's per-animation state and the background of each frame.

use vstd::prelude::*;
use crate::frame::{WIDTH, HEIGHT};
use crate::pixels::{RgbaFrame, rgba_data, rgba_dims, in_image, pixel_at};
use crate::draw_tools::{on_canvas, plot_column, plot_rect, rect_fits, lemma_plot_rect_pixel};

verus! {

/// State carried from one frame of the animation to the next (this
/// animation needs none).
pub struct State {}

/// The state at the start of the animation.
pub fn get_initial_state() -> (state: State)
    ensures
        state == (State {}),
{
    let ret = State {};
    ret
}

/// Paints every pixel of the canvas in `color`, one column after the other.
pub fn clear_background(frame: &mut RgbaFrame, color: [u8; 4])
    requires
        rgba_dims(*old(frame)).0 >= WIDTH,
        rgba_dims(*old(frame)).1 >= HEIGHT,
    ensures
        rgba_dims(*final(frame)) == rgba_dims(*old(frame)),
        rgba_data(*final(frame)) == plot_rect(
            rgba_data(*old(frame)), rgba_dims(*old(frame)).0 as int, 0, WIDTH as int, 0, HEIGHT as int, color@),
        forall|x: int, y: int| #[trigger] in_image(rgba_dims(*old(frame)), x, y) ==>
            pixel_at(rgba_data(*final(frame)), rgba_dims(*old(frame)).0 as int, x, y) ==
                if on_canvas(x, y) { color@ } else { pixel_at(rgba_data(*old(frame)), rgba_dims(*old(frame)).0 as int, x, y) },
{
    let _ = frame.dimensions();
    let ghost dims = rgba_dims(*frame);
    let ghost d0 = rgba_data(*frame);
    let ghost w = dims.0 as int;
    let mut x: u32 = 0;
    while x < WIDTH
        invariant
            x <= WIDTH,
            dims.0 >= WIDTH && dims.1 >= HEIGHT,
            rgba_dims(*frame) == dims,
            w == dims.0,
            rgba_data(*frame) == plot_rect(d0, w, 0, x as int, 0, HEIGHT as int, color@),
        decreases WIDTH - x,
    {
        let mut y: u32 = 0;
        while y < HEIGHT
            invariant
                x < WIDTH,
                y <= HEIGHT,
                dims.0 >= WIDTH && dims.1 >= HEIGHT,
                rgba_dims(*frame) == dims,
                w == dims.0,
                rgba_data(*frame) == plot_column(
                    plot_rect(d0, w, 0, x as int, 0, HEIGHT as int, color@), w, x as int, 0, y as int, color@),
            decreases HEIGHT - y,
        {
            frame.put_pixel(x, y, color);
            y += 1;
        }
        x += 1;
    }
    assert(rect_fits(dims, 0, WIDTH as int, 0, HEIGHT as int));
    assert forall|x: int, y: int| #[trigger] in_image(dims, x, y) implies
        pixel_at(rgba_data(*frame), w, x, y) ==
            if on_canvas(x, y) { color@ } else { pixel_at(d0, w, x, y) } by {
        lemma_plot_rect_pixel(dims, d0, 0, WIDTH as int, 0, HEIGHT as int, color@, x, y);
    }
}

} // verus!
