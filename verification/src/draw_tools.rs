//! Drawing primitives on a frame: squares, lines and triangles. Only the
//! pixels that fall on the `WIDTH` x `HEIGHT` canvas are drawn; the rest of
//! a shape is clipped away.

use vstd::prelude::*;
use crate::frame::{WIDTH, HEIGHT};
use crate::pixels::{RgbaFrame, rgba_data, rgba_dims, in_image, with_pixel, pixel_at, lemma_with_pixel};

verus! {

/// A position on the canvas.
pub struct Location<T> {
    pub x: T,
    pub y: T,
}

/// Whether (x, y) lies on the canvas.
pub open spec fn on_canvas(x: int, y: int) -> bool {
    0 <= x < WIDTH && 0 <= y < HEIGHT
}

/// The buffer after plotting, in order, each point of `pts` that lies on
/// the canvas in colour `c`.
pub open spec fn plot(data: Seq<u8>, width: int, pts: Seq<(i32, i32)>, c: Seq<u8>) -> Seq<u8>
    decreases pts.len(),
{
    if pts.len() == 0 {
        data
    } else {
        let before = plot(data, width, pts.drop_last(), c);
        let p = pts.last();
        if on_canvas(p.0 as int, p.1 as int) {
            with_pixel(before, width, p.0 as int, p.1 as int, c)
        } else {
            before
        }
    }
}

/// Every point of `pts` that lies on the canvas is a pixel of an image of
/// dimensions `dims`.
pub open spec fn fits(dims: (u32, u32), pts: Seq<(i32, i32)>) -> bool {
    forall|i: int| 0 <= i < pts.len() && on_canvas(pts[i].0 as int, pts[i].1 as int)
        ==> #[trigger] in_image(dims, pts[i].0 as int, pts[i].1 as int)
}

/// An image at least as large as the canvas holds every point of the canvas,
/// so any drawing fits it.
pub proof fn lemma_canvas_sized_fits(dims: (u32, u32), pts: Seq<(i32, i32)>, x0: int, x1: int, y0: int, y1: int)
    requires
        dims.0 >= WIDTH,
        dims.1 >= HEIGHT,
    ensures
        fits(dims, pts),
        rect_fits(dims, x0, x1, y0, y1),
{
}

/// Whether (x, y) is one of the points of `pts`.
pub open spec fn covers(pts: Seq<(i32, i32)>, x: int, y: int) -> bool {
    exists|i: int| 0 <= i < pts.len() && pts[i].0 == x && pts[i].1 == y
}

/// After plotting `pts` in colour `c`, a pixel has colour `c` when it is a
/// point of `pts` on the canvas, and is unchanged otherwise.
pub proof fn lemma_plot_pixel(dims: (u32, u32), data: Seq<u8>, pts: Seq<(i32, i32)>, c: Seq<u8>, x: int, y: int)
    requires
        data.len() == 4 * dims.0 * dims.1,
        c.len() == 4,
        fits(dims, pts),
        in_image(dims, x, y),
    ensures
        plot(data, dims.0 as int, pts, c).len() == data.len(),
        pixel_at(plot(data, dims.0 as int, pts, c), dims.0 as int, x, y) == if on_canvas(x, y) && covers(pts, x, y) {
            c
        } else {
            pixel_at(data, dims.0 as int, x, y)
        },
    decreases pts.len(),
{
    let w = dims.0 as int;
    if pts.len() > 0 {
        let rest = pts.drop_last();
        let p = pts.last();
        assert(fits(dims, rest)) by {
            assert forall|i: int| 0 <= i < rest.len() && on_canvas(rest[i].0 as int, rest[i].1 as int)
                implies #[trigger] in_image(dims, rest[i].0 as int, rest[i].1 as int) by {
                assert(rest[i] == pts[i]);
            }
        }
        lemma_plot_pixel(dims, data, rest, c, x, y);
        let before = plot(data, w, rest, c);
        assert(covers(pts, x, y) <==> covers(rest, x, y) || (p.0 == x && p.1 == y)) by {
            if covers(rest, x, y) {
                let i = choose|i: int| 0 <= i < rest.len() && rest[i].0 == x && rest[i].1 == y;
                assert(pts[i] == rest[i]);
            }
            if covers(pts, x, y) && !(p.0 == x && p.1 == y) {
                let i = choose|i: int| 0 <= i < pts.len() && pts[i].0 == x && pts[i].1 == y;
                assert(i != pts.len() - 1);
                assert(rest[i] == pts[i]);
            }
            if p.0 == x && p.1 == y {
                assert(pts[pts.len() - 1] == p);
            }
        }
        if on_canvas(p.0 as int, p.1 as int) {
            assert(pts[pts.len() - 1] == p);
            assert(in_image(dims, p.0 as int, p.1 as int));
            lemma_with_pixel(dims, before, p.0 as int, p.1 as int, c, x, y);
        }
    }
}

/// The buffer after plotting, for y from `y0` up to `y1` (excluded), the
/// point (x, y) when it lies on the canvas.
pub open spec fn plot_column(data: Seq<u8>, width: int, x: int, y0: int, y1: int, c: Seq<u8>) -> Seq<u8>
    decreases y1 - y0,
{
    if y1 <= y0 {
        data
    } else {
        let before = plot_column(data, width, x, y0, y1 - 1, c);
        if on_canvas(x, y1 - 1) {
            with_pixel(before, width, x, y1 - 1, c)
        } else {
            before
        }
    }
}

/// The buffer after plotting the columns x = `x0` .. `x1` (excluded) of the
/// rectangle [x0, x1) x [y0, y1), one column after the other.
pub open spec fn plot_rect(data: Seq<u8>, width: int, x0: int, x1: int, y0: int, y1: int, c: Seq<u8>) -> Seq<u8>
    decreases x1 - x0,
{
    if x1 <= x0 {
        data
    } else {
        plot_column(plot_rect(data, width, x0, x1 - 1, y0, y1, c), width, x1 - 1, y0, y1, c)
    }
}

/// Every point of the rectangle [x0, x1) x [y0, y1) that lies on the canvas
/// is a pixel of an image of dimensions `dims`.
pub open spec fn rect_fits(dims: (u32, u32), x0: int, x1: int, y0: int, y1: int) -> bool {
    forall|x: int, y: int| x0 <= x < x1 && y0 <= y < y1 && on_canvas(x, y) ==> #[trigger] in_image(dims, x, y)
}

/// After plotting the column x = `xc`, y in [y0, y1), a pixel has colour
/// `c` when it is a point of the column on the canvas, and is unchanged
/// otherwise.
pub proof fn lemma_plot_column_pixel(
    dims: (u32, u32),
    data: Seq<u8>,
    xc: int,
    y0: int,
    y1: int,
    c: Seq<u8>,
    x: int,
    y: int,
)
    requires
        data.len() == 4 * dims.0 * dims.1,
        c.len() == 4,
        rect_fits(dims, xc, xc + 1, y0, y1),
        in_image(dims, x, y),
    ensures
        plot_column(data, dims.0 as int, xc, y0, y1, c).len() == data.len(),
        pixel_at(plot_column(data, dims.0 as int, xc, y0, y1, c), dims.0 as int, x, y) ==
            if on_canvas(x, y) && x == xc && y0 <= y < y1 { c } else { pixel_at(data, dims.0 as int, x, y) },
    decreases y1 - y0,
{
    if y1 > y0 {
        assert(rect_fits(dims, xc, xc + 1, y0, y1 - 1));
        lemma_plot_column_pixel(dims, data, xc, y0, y1 - 1, c, x, y);
        if on_canvas(xc, y1 - 1) {
            assert(in_image(dims, xc, y1 - 1));
            lemma_with_pixel(dims, plot_column(data, dims.0 as int, xc, y0, y1 - 1, c), xc, y1 - 1, c, x, y);
        }
    }
}

/// After plotting the rectangle [x0, x1) x [y0, y1), a pixel has colour `c`
/// when it is a point of the rectangle on the canvas, and is unchanged
/// otherwise.
pub proof fn lemma_plot_rect_pixel(
    dims: (u32, u32),
    data: Seq<u8>,
    x0: int,
    x1: int,
    y0: int,
    y1: int,
    c: Seq<u8>,
    x: int,
    y: int,
)
    requires
        data.len() == 4 * dims.0 * dims.1,
        c.len() == 4,
        rect_fits(dims, x0, x1, y0, y1),
        in_image(dims, x, y),
    ensures
        plot_rect(data, dims.0 as int, x0, x1, y0, y1, c).len() == data.len(),
        pixel_at(plot_rect(data, dims.0 as int, x0, x1, y0, y1, c), dims.0 as int, x, y) ==
            if on_canvas(x, y) && x0 <= x < x1 && y0 <= y < y1 { c } else { pixel_at(data, dims.0 as int, x, y) },
    decreases x1 - x0,
{
    if x1 > x0 {
        assert(rect_fits(dims, x0, x1 - 1, y0, y1));
        assert(rect_fits(dims, x1 - 1, x1, y0, y1));
        lemma_plot_rect_pixel(dims, data, x0, x1 - 1, y0, y1, c, x, y);
        lemma_plot_column_pixel(dims, plot_rect(data, dims.0 as int, x0, x1 - 1, y0, y1, c), x1 - 1, y0, y1, c, x, y);
    }
}

/// The square of side `size` (rounded down to even) centred on `location`:
/// its corners x0 < x1 and y0 < y1, with the far edges excluded.
pub open spec fn square_bounds(location: Location<u32>, size: u32) -> (int, int, int, int) {
    let half = size / 2;
    (location.x - half, location.x + half, location.y - half, location.y + half)
}

/// The square around `location` stays within the `u32` range.
pub open spec fn square_in_range(location: Location<u32>, size: u32) -> bool {
    let half = size / 2;
    &&& location.x >= half
    &&& location.y >= half
    &&& location.x + half <= u32::MAX
    &&& location.y + half <= u32::MAX
}

/// The square drawn around `location` covers, of the canvas, exactly the
/// pixels with `location.x - size / 2 <= x < location.x + size / 2` and
/// `location.y - size / 2 <= y < location.y + size / 2`; every other pixel
/// keeps its colour.
pub proof fn lemma_square_pixel(
    dims: (u32, u32),
    data: Seq<u8>,
    location: Location<u32>,
    size: u32,
    c: Seq<u8>,
    x: int,
    y: int,
)
    requires
        data.len() == 4 * dims.0 * dims.1,
        c.len() == 4,
        rect_fits(dims, location.x - size / 2, location.x + size / 2, location.y - size / 2, location.y + size / 2),
        in_image(dims, x, y),
    ensures
        ({
            let (x0, x1, y0, y1) = square_bounds(location, size);
            pixel_at(plot_rect(data, dims.0 as int, x0, x1, y0, y1, c), dims.0 as int, x, y)
        }) == if on_canvas(x, y) && location.x - size / 2 <= x < location.x + size / 2
            && location.y - size / 2 <= y < location.y + size / 2 {
            c
        } else {
            pixel_at(data, dims.0 as int, x, y)
        },
{
    let (x0, x1, y0, y1) = square_bounds(location, size);
    assert(x0 == location.x - size / 2 && x1 == location.x + size / 2);
    assert(y0 == location.y - size / 2 && y1 == location.y + size / 2);
    lemma_plot_rect_pixel(dims, data, x0, x1, y0, y1, c, x, y);
}

/// Draws a filled square of side `size` (rounded down to even) centred on
/// `location`, clipped to the canvas.
pub fn draw_square(frame: &mut RgbaFrame, color: [u8; 4], location: &Location<u32>, size: u32)
    requires
        square_in_range(*location, size),
        ({
            let (x0, x1, y0, y1) = square_bounds(*location, size);
            rect_fits(rgba_dims(*old(frame)), x0, x1, y0, y1)
        }),
    ensures
        rgba_dims(*final(frame)) == rgba_dims(*old(frame)),
        ({
            let (x0, x1, y0, y1) = square_bounds(*location, size);
            rgba_data(*final(frame)) == plot_rect(
                rgba_data(*old(frame)), rgba_dims(*old(frame)).0 as int, x0, x1, y0, y1, color@)
        }),
        forall|x: int, y: int| #[trigger] in_image(rgba_dims(*old(frame)), x, y) ==>
            pixel_at(rgba_data(*final(frame)), rgba_dims(*old(frame)).0 as int, x, y) ==
                if on_canvas(x, y) && location.x - size / 2 <= x < location.x + size / 2
                    && location.y - size / 2 <= y < location.y + size / 2 {
                    color@
                } else {
                    pixel_at(rgba_data(*old(frame)), rgba_dims(*old(frame)).0 as int, x, y)
                },
{
    let _ = frame.dimensions();
    let ghost dims = rgba_dims(*frame);
    let ghost d0 = rgba_data(*frame);
    let ghost w = dims.0 as int;
    let x0 = location.x - (size / 2);
    let x1 = location.x + (size / 2);
    let y0 = location.y - (size / 2);
    let y1 = location.y + (size / 2);
    let mut x = x0;
    while x < x1
        invariant
            x0 <= x <= x1,
            y0 <= y1,
            rect_fits(dims, x0 as int, x1 as int, y0 as int, y1 as int),
            rgba_dims(*frame) == dims,
            w == dims.0,
            rgba_data(*frame) == plot_rect(d0, w, x0 as int, x as int, y0 as int, y1 as int, color@),
        decreases x1 - x,
    {
        let ghost col_start = rgba_data(*frame);
        let mut y = y0;
        while y < y1
            invariant
                x0 <= x < x1,
                y0 <= y <= y1,
                rect_fits(dims, x0 as int, x1 as int, y0 as int, y1 as int),
                rgba_dims(*frame) == dims,
                w == dims.0,
                rgba_data(*frame) == plot_column(col_start, w, x as int, y0 as int, y as int, color@),
            decreases y1 - y,
        {
            if x < WIDTH && y < HEIGHT {
                assert(in_image(dims, x as int, y as int));
                frame.put_pixel(x, y, color);
            }
            y += 1;
        }
        x += 1;
    }
    assert forall|x: int, y: int| #[trigger] in_image(dims, x, y) implies
        pixel_at(rgba_data(*frame), w, x, y) ==
            if on_canvas(x, y) && location.x - size / 2 <= x < location.x + size / 2
                && location.y - size / 2 <= y < location.y + size / 2 {
                color@
            } else {
                pixel_at(d0, w, x, y)
            } by {
        lemma_square_pixel(dims, d0, *location, size, color@, x, y);
    }
}

/// The points that `line_drawing::Bresenham` yields for the line from
/// `start` to `end`.
pub uninterp spec fn bresenham_line(start: (i32, i32), end: (i32, i32)) -> Seq<(i32, i32)>;

/// Coordinates that the line algorithm handles without overflowing `i32`.
pub open spec fn line_coord(v: i32) -> bool {
    -0x4000_0000 < v < 0x4000_0000
}

/// Both ends of a line have coordinates the line algorithm handles.
pub open spec fn line_ends(start: (i32, i32), end: (i32, i32)) -> bool {
    line_coord(start.0) && line_coord(start.1) && line_coord(end.0) && line_coord(end.1)
}

/// `line_drawing::Bresenham::new(start, end)`, collected into a vector. The
/// crate documents that the line includes both its start and its end point,
/// in that order. The algorithm computes coordinate differences and steps
/// one past the end in `i32`, which overflows near the ends of the `i32`
/// range; coordinates under 2^30 in magnitude are clear of that.
#[verifier::external_body]
fn bresenham_points(start: (i32, i32), end: (i32, i32)) -> (pts: Vec<(i32, i32)>)
    requires
        line_ends(start, end),
    ensures
        pts@ == bresenham_line(start, end),
        pts@.len() >= 1,
        pts@[0] == start,
        pts@.last() == end,
{
    line_drawing::Bresenham::new(start, end).collect()
}

/// Draws the line from `start` to `end` (Bresenham's algorithm, both ends
/// included) in `color`, clipped to the canvas.
pub fn draw_line(frame: &mut RgbaFrame, color: [u8; 4], start: (i32, i32), end: (i32, i32))
    requires
        line_ends(start, end),
        fits(rgba_dims(*old(frame)), bresenham_line(start, end)),
    ensures
        rgba_dims(*final(frame)) == rgba_dims(*old(frame)),
        rgba_data(*final(frame)) == plot(
            rgba_data(*old(frame)), rgba_dims(*old(frame)).0 as int, bresenham_line(start, end), color@),
        bresenham_line(start, end).len() >= 1,
        bresenham_line(start, end)[0] == start,
        bresenham_line(start, end).last() == end,
        forall|x: int, y: int| #[trigger] in_image(rgba_dims(*old(frame)), x, y) ==>
            pixel_at(rgba_data(*final(frame)), rgba_dims(*old(frame)).0 as int, x, y) ==
                if on_canvas(x, y) && covers(bresenham_line(start, end), x, y) {
                    color@
                } else {
                    pixel_at(rgba_data(*old(frame)), rgba_dims(*old(frame)).0 as int, x, y)
                },
        on_canvas(start.0 as int, start.1 as int) ==>
            pixel_at(rgba_data(*final(frame)), rgba_dims(*old(frame)).0 as int, start.0 as int, start.1 as int) == color@,
        on_canvas(end.0 as int, end.1 as int) ==>
            pixel_at(rgba_data(*final(frame)), rgba_dims(*old(frame)).0 as int, end.0 as int, end.1 as int) == color@,
{
    let _ = frame.dimensions();
    let ln = bresenham_points(start, end);
    let ghost dims = rgba_dims(*frame);
    let ghost d0 = rgba_data(*frame);
    let mut i: usize = 0;
    while i < ln.len()
        invariant
            i <= ln@.len(),
            ln@ == bresenham_line(start, end),
            fits(dims, ln@),
            rgba_dims(*frame) == dims,
            rgba_data(*frame) == plot(d0, dims.0 as int, ln@.take(i as int), color@),
        decreases ln@.len() - i,
    {
        let (x, y) = ln[i];
        assert(ln@.take(i + 1).drop_last() =~= ln@.take(i as int));
        assert(ln@.take(i + 1).last() == ln@[i as int]);
        if x >= 0 && x < WIDTH as i32 && y >= 0 && y < HEIGHT as i32 {
            assert(in_image(dims, ln@[i as int].0 as int, ln@[i as int].1 as int));
            frame.put_pixel(x as u32, y as u32, color);
        }
        i += 1;
    }
    assert(ln@.take(ln@.len() as int) =~= ln@);
    assert forall|x: int, y: int| #[trigger] in_image(dims, x, y) implies
        pixel_at(rgba_data(*frame), dims.0 as int, x, y) ==
            if on_canvas(x, y) && covers(ln@, x, y) { color@ } else { pixel_at(d0, dims.0 as int, x, y) } by {
        lemma_plot_pixel(dims, d0, ln@, color@, x, y);
    }
    proof {
        if on_canvas(start.0 as int, start.1 as int) {
            assert(in_image(dims, start.0 as int, start.1 as int));
            assert(covers(ln@, start.0 as int, start.1 as int));
        }
        if on_canvas(end.0 as int, end.1 as int) {
            assert(in_image(dims, end.0 as int, end.1 as int));
            assert(ln@[ln@.len() - 1] == end);
            assert(covers(ln@, end.0 as int, end.1 as int));
        }
    }
}

/// The three sides of the triangle, drawn in the order (pt1, pt2),
/// (pt1, pt3), (pt2, pt3).
pub open spec fn triangle_outline(
    data: Seq<u8>,
    width: int,
    c: Seq<u8>,
    pt1: (i32, i32),
    pt2: (i32, i32),
    pt3: (i32, i32),
) -> Seq<u8> {
    plot(plot(plot(data, width, bresenham_line(pt1, pt2), c), width, bresenham_line(pt1, pt3), c),
        width, bresenham_line(pt2, pt3), c)
}

/// The corners have coordinates the line algorithm handles, and each side
/// of the triangle fits an image of dimensions `dims`.
pub open spec fn outline_fits(dims: (u32, u32), pt1: (i32, i32), pt2: (i32, i32), pt3: (i32, i32)) -> bool {
    &&& line_ends(pt1, pt2)
    &&& line_ends(pt1, pt3)
    &&& fits(dims, bresenham_line(pt1, pt2))
    &&& fits(dims, bresenham_line(pt1, pt3))
    &&& fits(dims, bresenham_line(pt2, pt3))
}

/// Whether (x, y) is a point of one of the three sides of the triangle
/// (pt1, pt2, pt3).
pub open spec fn on_outline(pt1: (i32, i32), pt2: (i32, i32), pt3: (i32, i32), x: int, y: int) -> bool {
    covers(bresenham_line(pt1, pt2), x, y) || covers(bresenham_line(pt1, pt3), x, y)
        || covers(bresenham_line(pt2, pt3), x, y)
}

/// Drawing the outline of a triangle gives colour `c` to exactly the points
/// on the canvas of its three sides; every other pixel keeps its colour.
pub proof fn lemma_triangle_outline_pixel(
    dims: (u32, u32),
    data: Seq<u8>,
    c: Seq<u8>,
    pt1: (i32, i32),
    pt2: (i32, i32),
    pt3: (i32, i32),
    x: int,
    y: int,
)
    requires
        data.len() == 4 * dims.0 * dims.1,
        c.len() == 4,
        outline_fits(dims, pt1, pt2, pt3),
        in_image(dims, x, y),
    ensures
        triangle_outline(data, dims.0 as int, c, pt1, pt2, pt3).len() == data.len(),
        pixel_at(triangle_outline(data, dims.0 as int, c, pt1, pt2, pt3), dims.0 as int, x, y) ==
            if on_canvas(x, y) && on_outline(pt1, pt2, pt3, x, y) { c } else { pixel_at(data, dims.0 as int, x, y) },
{
    let w = dims.0 as int;
    let d1 = plot(data, w, bresenham_line(pt1, pt2), c);
    let d2 = plot(d1, w, bresenham_line(pt1, pt3), c);
    lemma_plot_pixel(dims, data, bresenham_line(pt1, pt2), c, x, y);
    lemma_plot_pixel(dims, d1, bresenham_line(pt1, pt3), c, x, y);
    lemma_plot_pixel(dims, d2, bresenham_line(pt2, pt3), c, x, y);
}

/// Every point on the canvas of the three sides of the triangle
/// (pt1, pt2, pt3) has colour `c`.
pub open spec fn outline_painted(
    dims: (u32, u32),
    data: Seq<u8>,
    c: Seq<u8>,
    pt1: (i32, i32),
    pt2: (i32, i32),
    pt3: (i32, i32),
) -> bool {
    forall|x: int, y: int|
        #[trigger] in_image(dims, x, y) && on_canvas(x, y) && (covers(bresenham_line(pt1, pt2), x, y)
            || covers(bresenham_line(pt1, pt3), x, y) || covers(bresenham_line(pt2, pt3), x, y))
        ==> pixel_at(data, dims.0 as int, x, y) == c
}

/// Draws the outline of a triangle (no fill).
pub fn draw_triangle_from_points(
    frame: &mut RgbaFrame,
    col: [u8; 4],
    pt1: (i32, i32),
    pt2: (i32, i32),
    pt3: (i32, i32),
)
    requires
        outline_fits(rgba_dims(*old(frame)), pt1, pt2, pt3),
    ensures
        rgba_dims(*final(frame)) == rgba_dims(*old(frame)),
        rgba_data(*final(frame)) == triangle_outline(
            rgba_data(*old(frame)), rgba_dims(*old(frame)).0 as int, col@, pt1, pt2, pt3),
        outline_painted(rgba_dims(*old(frame)), rgba_data(*final(frame)), col@, pt1, pt2, pt3),
        forall|x: int, y: int| #[trigger] in_image(rgba_dims(*old(frame)), x, y) ==>
            pixel_at(rgba_data(*final(frame)), rgba_dims(*old(frame)).0 as int, x, y) ==
                if on_canvas(x, y) && (covers(bresenham_line(pt1, pt2), x, y)
                    || covers(bresenham_line(pt1, pt3), x, y) || covers(bresenham_line(pt2, pt3), x, y)) {
                    col@
                } else {
                    pixel_at(rgba_data(*old(frame)), rgba_dims(*old(frame)).0 as int, x, y)
                },
        on_canvas(pt1.0 as int, pt1.1 as int) ==>
            pixel_at(rgba_data(*final(frame)), rgba_dims(*old(frame)).0 as int, pt1.0 as int, pt1.1 as int) == col@,
        on_canvas(pt2.0 as int, pt2.1 as int) ==>
            pixel_at(rgba_data(*final(frame)), rgba_dims(*old(frame)).0 as int, pt2.0 as int, pt2.1 as int) == col@,
        on_canvas(pt3.0 as int, pt3.1 as int) ==>
            pixel_at(rgba_data(*final(frame)), rgba_dims(*old(frame)).0 as int, pt3.0 as int, pt3.1 as int) == col@,
{
    let _ = frame.dimensions();
    let ghost dims = rgba_dims(*frame);
    let ghost d0 = rgba_data(*frame);
    draw_line(frame, col, pt1, pt2);
    draw_line(frame, col, pt1, pt3);
    draw_line(frame, col, pt2, pt3);
    proof {
        let l12 = bresenham_line(pt1, pt2);
        let l13 = bresenham_line(pt1, pt3);
        let l23 = bresenham_line(pt2, pt3);
        assert forall|x: int, y: int| #[trigger] in_image(dims, x, y) implies
            pixel_at(rgba_data(*frame), dims.0 as int, x, y) ==
                if on_canvas(x, y) && on_outline(pt1, pt2, pt3, x, y) { col@ } else { pixel_at(d0, dims.0 as int, x, y) } by {
            lemma_triangle_outline_pixel(dims, d0, col@, pt1, pt2, pt3, x, y);
        }
        assert(l12[0] == pt1 && l23[0] == pt2 && l23[l23.len() - 1] == pt3);
        if on_canvas(pt1.0 as int, pt1.1 as int) {
            assert(in_image(dims, pt1.0 as int, pt1.1 as int));
            assert(covers(l12, pt1.0 as int, pt1.1 as int));
        }
        if on_canvas(pt2.0 as int, pt2.1 as int) {
            assert(in_image(dims, pt2.0 as int, pt2.1 as int));
            assert(covers(l23, pt2.0 as int, pt2.1 as int));
        }
        if on_canvas(pt3.0 as int, pt3.1 as int) {
            assert(in_image(dims, pt3.0 as int, pt3.1 as int));
            assert(covers(l23, pt3.0 as int, pt3.1 as int));
        }
    }
}

/// `sorted` holds the three points of `points` in order of increasing y,
/// points with equal y keeping their order in `points` (a stable sort).
pub open spec fn stable_sort_by_y(points: Seq<(i32, i32)>, sorted: Seq<(i32, i32)>) -> bool {
    &&& points.len() == 3
    &&& sorted.len() == 3
    &&& sorted[0].1 <= sorted[1].1 <= sorted[2].1
    &&& exists|a: int, b: int, c: int|
        #![trigger points[a], points[b], points[c]]
        {
            &&& 0 <= a < 3 && 0 <= b < 3 && 0 <= c < 3
            &&& a != b && b != c && a != c
            &&& sorted[0] == points[a] && sorted[1] == points[b] && sorted[2] == points[c]
            &&& (sorted[0].1 == sorted[1].1 ==> a < b)
            &&& (sorted[1].1 == sorted[2].1 ==> b < c)
        }
}

/// The three points sorted by their y coordinate, stably.
pub fn sort_points_by_y(points: [(i32, i32); 3]) -> (sorted: [(i32, i32); 3])
    ensures
        stable_sort_by_y(points@, sorted@),
{
    let p0 = points[0];
    let p1 = points[1];
    let p2 = points[2];
    let sorted = if p0.1 <= p1.1 {
        if p1.1 <= p2.1 {
            [p0, p1, p2]
        } else if p0.1 <= p2.1 {
            [p0, p2, p1]
        } else {
            [p2, p0, p1]
        }
    } else {
        if p0.1 <= p2.1 {
            [p1, p0, p2]
        } else if p1.1 <= p2.1 {
            [p1, p2, p0]
        } else {
            [p2, p1, p0]
        }
    };
    assert(points@[0] == p0 && points@[1] == p1 && points@[2] == p2);
    sorted
}

/// The horizontal line through row `y` from x = `span.0` to x = `span.1`.
pub open spec fn row_line(span: (i32, i32), y: int) -> Seq<(i32, i32)> {
    bresenham_line((span.0, y as i32), (span.1, y as i32))
}

/// The buffer after drawing, in colour `c`, the row line of each span:
/// `spans[k]` on row `y0 + k`.
pub open spec fn fill_rows(data: Seq<u8>, width: int, c: Seq<u8>, y0: int, spans: Seq<(i32, i32)>) -> Seq<u8>
    decreases spans.len(),
{
    if spans.len() == 0 {
        data
    } else {
        plot(fill_rows(data, width, c, y0, spans.drop_last()), width,
            row_line(spans.last(), y0 + spans.len() - 1), c)
    }
}

/// Like `fill_rows`, with the outline of the triangle (pt1, pt2, pt3) drawn
/// in `outline` after each row.
pub open spec fn fill_rows_outlined(
    data: Seq<u8>,
    width: int,
    c: Seq<u8>,
    y0: int,
    spans: Seq<(i32, i32)>,
    outline: Seq<u8>,
    pt1: (i32, i32),
    pt2: (i32, i32),
    pt3: (i32, i32),
) -> Seq<u8>
    decreases spans.len(),
{
    if spans.len() == 0 {
        data
    } else {
        let before = fill_rows_outlined(data, width, c, y0, spans.drop_last(), outline, pt1, pt2, pt3);
        triangle_outline(plot(before, width, row_line(spans.last(), y0 + spans.len() - 1), c),
            width, outline, pt1, pt2, pt3)
    }
}

/// Whether (x, y) is a point of the row line of some span: `spans[k]` drawn
/// on row `y0 + k`.
pub open spec fn rows_cover(y0: int, spans: Seq<(i32, i32)>, x: int, y: int) -> bool {
    exists|k: int| 0 <= k < spans.len() && #[trigger] covers(row_line(spans[k], y0 + k), x, y)
}

/// Filling rows gives colour `c` to exactly the points on the canvas of the
/// row lines of the spans, whichever way each span runs; every other pixel
/// keeps its colour.
pub proof fn lemma_fill_rows_pixel(
    dims: (u32, u32),
    data: Seq<u8>,
    c: Seq<u8>,
    y0: int,
    spans: Seq<(i32, i32)>,
    x: int,
    y: int,
)
    requires
        data.len() == 4 * dims.0 * dims.1,
        c.len() == 4,
        rows_fit(dims, y0, spans),
        in_image(dims, x, y),
    ensures
        fill_rows(data, dims.0 as int, c, y0, spans).len() == data.len(),
        pixel_at(fill_rows(data, dims.0 as int, c, y0, spans), dims.0 as int, x, y) ==
            if on_canvas(x, y) && rows_cover(y0, spans, x, y) { c } else { pixel_at(data, dims.0 as int, x, y) },
    decreases spans.len(),
{
    let w = dims.0 as int;
    if spans.len() > 0 {
        let rest = spans.drop_last();
        let n = spans.len() - 1;
        assert(rows_fit(dims, y0, rest)) by {
            assert forall|k: int| #![trigger rest[k]] 0 <= k < rest.len() implies line_coord(rest[k].0)
                && line_coord(rest[k].1) && fits(dims, row_line(rest[k], y0 + k)) by {
                assert(rest[k] == spans[k]);
                assert(fits(dims, row_line(spans[k], y0 + k)));
                assert(line_coord(spans[k].0) && line_coord(spans[k].1));
            }
        }
        lemma_fill_rows_pixel(dims, data, c, y0, rest, x, y);
        assert(fits(dims, row_line(spans[n], y0 + n)));
        assert(spans.last() == spans[n]);
        lemma_plot_pixel(dims, fill_rows(data, w, c, y0, rest), row_line(spans[n], y0 + n), c, x, y);
        assert(rows_cover(y0, spans, x, y) <==> rows_cover(y0, rest, x, y) || covers(row_line(spans[n], y0 + n), x, y)) by {
            if rows_cover(y0, rest, x, y) {
                let k = choose|k: int| 0 <= k < rest.len() && #[trigger] covers(row_line(rest[k], y0 + k), x, y);
                assert(rest[k] == spans[k]);
            }
            if rows_cover(y0, spans, x, y) && !covers(row_line(spans[n], y0 + n), x, y) {
                let k = choose|k: int| 0 <= k < spans.len() && #[trigger] covers(row_line(spans[k], y0 + k), x, y);
                assert(k < n);
                assert(rest[k] == spans[k]);
            }
        }
    }
}

/// Filling rows with the outline drawn after each row: the points on the
/// canvas of the outline end in colour `outline` (when there is a row), the
/// other points of the row lines in colour `c`, and every other pixel keeps
/// its colour.
pub proof fn lemma_fill_rows_outlined_pixel(
    dims: (u32, u32),
    data: Seq<u8>,
    c: Seq<u8>,
    y0: int,
    spans: Seq<(i32, i32)>,
    outline: Seq<u8>,
    pt1: (i32, i32),
    pt2: (i32, i32),
    pt3: (i32, i32),
    x: int,
    y: int,
)
    requires
        data.len() == 4 * dims.0 * dims.1,
        c.len() == 4,
        outline.len() == 4,
        rows_fit(dims, y0, spans),
        outline_fits(dims, pt1, pt2, pt3),
        in_image(dims, x, y),
    ensures
        fill_rows_outlined(data, dims.0 as int, c, y0, spans, outline, pt1, pt2, pt3).len() == data.len(),
        pixel_at(fill_rows_outlined(data, dims.0 as int, c, y0, spans, outline, pt1, pt2, pt3), dims.0 as int, x, y) ==
            if on_canvas(x, y) && spans.len() > 0 && on_outline(pt1, pt2, pt3, x, y) {
                outline
            } else if on_canvas(x, y) && rows_cover(y0, spans, x, y) {
                c
            } else {
                pixel_at(data, dims.0 as int, x, y)
            },
    decreases spans.len(),
{
    let w = dims.0 as int;
    if spans.len() > 0 {
        let rest = spans.drop_last();
        let n = spans.len() - 1;
        assert(rows_fit(dims, y0, rest)) by {
            assert forall|k: int| #![trigger rest[k]] 0 <= k < rest.len() implies line_coord(rest[k].0)
                && line_coord(rest[k].1) && fits(dims, row_line(rest[k], y0 + k)) by {
                assert(rest[k] == spans[k]);
                assert(fits(dims, row_line(spans[k], y0 + k)));
                assert(line_coord(spans[k].0) && line_coord(spans[k].1));
            }
        }
        lemma_fill_rows_outlined_pixel(dims, data, c, y0, rest, outline, pt1, pt2, pt3, x, y);
        let before = fill_rows_outlined(data, w, c, y0, rest, outline, pt1, pt2, pt3);
        assert(fits(dims, row_line(spans[n], y0 + n)));
        assert(spans.last() == spans[n]);
        lemma_plot_pixel(dims, before, row_line(spans[n], y0 + n), c, x, y);
        let row = plot(before, w, row_line(spans[n], y0 + n), c);
        lemma_triangle_outline_pixel(dims, row, outline, pt1, pt2, pt3, x, y);
        assert(rows_cover(y0, spans, x, y) <==> rows_cover(y0, rest, x, y) || covers(row_line(spans[n], y0 + n), x, y)) by {
            if rows_cover(y0, rest, x, y) {
                let k = choose|k: int| 0 <= k < rest.len() && #[trigger] covers(row_line(rest[k], y0 + k), x, y);
                assert(rest[k] == spans[k]);
            }
            if rows_cover(y0, spans, x, y) && !covers(row_line(spans[n], y0 + n), x, y) {
                let k = choose|k: int| 0 <= k < spans.len() && #[trigger] covers(row_line(spans[k], y0 + k), x, y);
                assert(k < n);
                assert(rest[k] == spans[k]);
            }
        }
    }
}

/// Each span's row line, with `spans[k]` on row `y0 + k`, has ends the line
/// algorithm handles and fits an image of dimensions `dims`.
pub open spec fn rows_fit(dims: (u32, u32), y0: int, spans: Seq<(i32, i32)>) -> bool {
    forall|k: int| 0 <= k < spans.len() ==> {
        &&& line_coord(spans[k].0)
        &&& line_coord(spans[k].1)
        &&& fits(dims, #[trigger] row_line(spans[k], y0 + k))
    }
}

/// Fills a triangle row by row and outlines it. `points` are its corners
/// sorted by y; `upper[k]` is the span drawn on row `points[0].1 + k` (from
/// the top corner down to the middle one), `lower[k]` the span drawn on row
/// `points[1].1 + k` (from the middle corner down to the bottom one). The
/// outline (pt1, pt2, pt3) is drawn in `col_outline` after each lower row.
pub fn fill_triangle_rows(
    frame: &mut RgbaFrame,
    col_outline: [u8; 4],
    col: [u8; 4],
    pt1: (i32, i32),
    pt2: (i32, i32),
    pt3: (i32, i32),
    points: [(i32, i32); 3],
    upper: &Vec<(i32, i32)>,
    lower: &Vec<(i32, i32)>,
)
    requires
        points@[0].1 <= points@[1].1 <= points@[2].1,
        line_coord(points@[0].1),
        line_coord(points@[2].1),
        upper@.len() == points@[1].1 - points@[0].1 + 1,
        lower@.len() == points@[2].1 - points@[1].1 + 1,
        rows_fit(rgba_dims(*old(frame)), points@[0].1 as int, upper@),
        rows_fit(rgba_dims(*old(frame)), points@[1].1 as int, lower@),
        outline_fits(rgba_dims(*old(frame)), pt1, pt2, pt3),
    ensures
        rgba_dims(*final(frame)) == rgba_dims(*old(frame)),
        ({
            let w = rgba_dims(*old(frame)).0 as int;
            let filled = fill_rows(rgba_data(*old(frame)), w, col@, points@[0].1 as int, upper@);
            rgba_data(*final(frame)) == fill_rows_outlined(
                filled, w, col@, points@[1].1 as int, lower@, col_outline@, pt1, pt2, pt3)
        }),
        outline_painted(rgba_dims(*old(frame)), rgba_data(*final(frame)), col_outline@, pt1, pt2, pt3),
        forall|x: int, y: int| #[trigger] in_image(rgba_dims(*old(frame)), x, y) ==>
            pixel_at(rgba_data(*final(frame)), rgba_dims(*old(frame)).0 as int, x, y) ==
                if on_canvas(x, y) && on_outline(pt1, pt2, pt3, x, y) {
                    col_outline@
                } else if on_canvas(x, y) && (rows_cover(points@[0].1 as int, upper@, x, y)
                    || rows_cover(points@[1].1 as int, lower@, x, y)) {
                    col@
                } else {
                    pixel_at(rgba_data(*old(frame)), rgba_dims(*old(frame)).0 as int, x, y)
                },
        forall|k: int, x: int, y: int|
            0 <= k < upper@.len() && #[trigger] covers(row_line(upper@[k], points@[0].1 + k), x, y)
                && in_image(rgba_dims(*old(frame)), x, y) && on_canvas(x, y) && !on_outline(pt1, pt2, pt3, x, y)
            ==> pixel_at(rgba_data(*final(frame)), rgba_dims(*old(frame)).0 as int, x, y) == col@,
        forall|k: int, x: int, y: int|
            0 <= k < lower@.len() && #[trigger] covers(row_line(lower@[k], points@[1].1 + k), x, y)
                && in_image(rgba_dims(*old(frame)), x, y) && on_canvas(x, y) && !on_outline(pt1, pt2, pt3, x, y)
            ==> pixel_at(rgba_data(*final(frame)), rgba_dims(*old(frame)).0 as int, x, y) == col@,
{
    let _ = frame.dimensions();
    let ghost dims = rgba_dims(*frame);
    let ghost w = dims.0 as int;
    let ghost d0 = rgba_data(*frame);
    let top = points[0].1;
    let mid = points[1].1;
    let mut k: usize = 0;
    while k < upper.len()
        invariant
            k <= upper@.len(),
            upper@.len() == mid - top + 1,
            line_coord(top),
            line_coord(points@[2].1),
            top <= mid <= points@[2].1,
            rows_fit(dims, top as int, upper@),
            rgba_dims(*frame) == dims,
            w == dims.0,
            rgba_data(*frame) == fill_rows(d0, w, col@, top as int, upper@.take(k as int)),
        decreases upper@.len() - k,
    {
        let y = (top as i64 + k as i64) as i32;
        let span = upper[k];
        assert(upper@.take(k + 1).drop_last() =~= upper@.take(k as int));
        assert(fits(dims, row_line(upper@[k as int], top + k)));
        draw_line(frame, col, (span.0, y), (span.1, y));
        k += 1;
    }
    assert(upper@.take(upper@.len() as int) =~= upper@);
    let ghost filled = rgba_data(*frame);
    let mut k: usize = 0;
    while k < lower.len()
        invariant
            k <= lower@.len(),
            lower@.len() == points@[2].1 - mid + 1,
            line_coord(top),
            line_coord(points@[2].1),
            top <= mid <= points@[2].1,
            rows_fit(dims, mid as int, lower@),
            outline_fits(dims, pt1, pt2, pt3),
            rgba_dims(*frame) == dims,
            w == dims.0,
            rgba_data(*frame) == fill_rows_outlined(
                filled, w, col@, mid as int, lower@.take(k as int), col_outline@, pt1, pt2, pt3),
            k > 0 ==> outline_painted(dims, rgba_data(*frame), col_outline@, pt1, pt2, pt3),
        decreases lower@.len() - k,
    {
        let y = (mid as i64 + k as i64) as i32;
        let span = lower[k];
        assert(lower@.take(k + 1).drop_last() =~= lower@.take(k as int));
        assert(fits(dims, row_line(lower@[k as int], mid + k)));
        draw_line(frame, col, (span.0, y), (span.1, y));
        draw_triangle_from_points(frame, col_outline, pt1, pt2, pt3);
        k += 1;
    }
    assert(lower@.take(lower@.len() as int) =~= lower@);
    proof {
        let top_i = points@[0].1 as int;
        let mid_i = points@[1].1 as int;
        assert forall|x: int, y: int| #[trigger] in_image(dims, x, y) implies
            pixel_at(rgba_data(*frame), w, x, y) ==
                if on_canvas(x, y) && on_outline(pt1, pt2, pt3, x, y) {
                    col_outline@
                } else if on_canvas(x, y) && (rows_cover(top_i, upper@, x, y) || rows_cover(mid_i, lower@, x, y)) {
                    col@
                } else {
                    pixel_at(d0, w, x, y)
                } by {
            lemma_fill_rows_pixel(dims, d0, col@, top_i, upper@, x, y);
            lemma_fill_rows_outlined_pixel(dims, filled, col@, mid_i, lower@, col_outline@, pt1, pt2, pt3, x, y);
        }
        assert forall|k: int, x: int, y: int|
            0 <= k < upper@.len() && #[trigger] covers(row_line(upper@[k], top_i + k), x, y)
                && in_image(dims, x, y) && on_canvas(x, y) && !on_outline(pt1, pt2, pt3, x, y)
            implies pixel_at(rgba_data(*frame), w, x, y) == col@ by {
            assert(rows_cover(top_i, upper@, x, y));
        }
        assert forall|k: int, x: int, y: int|
            0 <= k < lower@.len() && #[trigger] covers(row_line(lower@[k], mid_i + k), x, y)
                && in_image(dims, x, y) && on_canvas(x, y) && !on_outline(pt1, pt2, pt3, x, y)
            implies pixel_at(rgba_data(*frame), w, x, y) == col@ by {
            assert(rows_cover(mid_i, lower@, x, y));
        }
    }
}

} // verus!
