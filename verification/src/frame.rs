//! Preparing the next frame of the animation from the previous one: every
//! pixel of the previous frame fades towards black.

use vstd::prelude::*;
use crate::pixels::{RgbaFrame, rgba_data, rgba_dims, pixel_at, lemma_with_pixel};

verus! {

/// Width of the canvas the renderer draws on.
pub const WIDTH: u32 = 300;

/// Height of the canvas the renderer draws on.
pub const HEIGHT: u32 = 300;

/// Number of frames in one cycle of the animation.
pub const FRAMES: u32 = 360;

/// How much each colour channel fades per elapsed frame.
pub const DECAY: u32 = 6;

/// A colour channel after fading by `amount`: it drops by `amount`, and
/// stops at zero.
pub open spec fn faded(c: u8, amount: int) -> u8 {
    if c >= amount { (c - amount) as u8 } else { 0 }
}

/// An RGBA pixel after fading by `amount`: the colour channels fade and the
/// pixel becomes opaque.
pub open spec fn faded_pixel(p: Seq<u8>, amount: int) -> Seq<u8> {
    seq![faded(p[0], amount), faded(p[1], amount), faded(p[2], amount), 255u8]
}

/// Opaque black.
pub open spec fn opaque_black() -> Seq<u8> {
    seq![0u8, 0u8, 0u8, 255u8]
}

/// Pixel (x, y) of the frame that follows `prev` after `frame_count`
/// elapsed frames: the previous pixel faded by `frame_count * DECAY`, or
/// opaque black when there is no previous frame.
pub open spec fn next_pixel(prev: Option<RgbaFrame>, frame_count: u8, x: int, y: int) -> Seq<u8> {
    match prev {
        Some(f) => faded_pixel(pixel_at(rgba_data(f), rgba_dims(f).0 as int, x, y), frame_count * DECAY),
        None => opaque_black(),
    }
}

/// Fading never brightens a channel, and a black channel stays black.
pub proof fn lemma_faded_bounds(c: u8, amount: int)
    requires
        amount >= 0,
    ensures
        faded(c, amount) <= c,
        c == 0 ==> faded(c, amount) == 0,
        amount == 0 ==> faded(c, amount) == c,
        amount >= 255 ==> faded(c, amount) == 0,
{
}

/// Fading by `a` and then by `b` is fading by `a + b`.
pub proof fn lemma_faded_compose(c: u8, a: int, b: int)
    requires
        a >= 0,
        b >= 0,
    ensures
        faded(faded(c, a), b) == faded(c, a + b),
{
}

/// A frame prepared from the frame that was itself prepared from `first`
/// shows, on the canvas, `first` faded by the frames elapsed in both steps
/// together; its pixels are opaque, and no colour channel is brighter than
/// after the first step.
pub proof fn lemma_fading_accumulates(first: RgbaFrame, second: RgbaFrame, count1: u8, count2: u8, x: int, y: int)
    requires
        0 <= x < WIDTH,
        0 <= y < HEIGHT,
        rgba_dims(second) == (WIDTH, HEIGHT),
        pixel_at(rgba_data(second), WIDTH as int, x, y) == next_pixel(Some(first), count1, x, y),
    ensures
        next_pixel(Some(second), count2, x, y) == faded_pixel(
            pixel_at(rgba_data(first), rgba_dims(first).0 as int, x, y), (count1 + count2) * DECAY),
        forall|k: int| 0 <= k < 3 ==>
            #[trigger] next_pixel(Some(second), count2, x, y)[k] <= next_pixel(Some(first), count1, x, y)[k],
        next_pixel(Some(second), count2, x, y)[3] == 255,
{
    let p = pixel_at(rgba_data(first), rgba_dims(first).0 as int, x, y);
    let a = count1 * DECAY;
    let b = count2 * DECAY;
    lemma_faded_compose(p[0], a, b);
    lemma_faded_compose(p[1], a, b);
    lemma_faded_compose(p[2], a, b);
    assert((count1 + count2) * DECAY == a + b);
    assert(next_pixel(Some(second), count2, x, y) =~= faded_pixel(p, (count1 + count2) * DECAY));
}

/// Whether frame `frame` of a rendering pass is kept: the pass renders one
/// and a half cycles and keeps the `FRAMES` frames from the middle of the
/// first cycle to the middle of the second, so that the colours fading in
/// from the previous cycle are seen.
pub fn is_captured_frame(frame: u32) -> (kept: bool)
    ensures
        kept <==> FRAMES / 2 <= frame < FRAMES * 3 / 2,
{
    frame >= FRAMES / 2 && frame < (FRAMES * 3 / 2)
}

/// The position in the animation cycle after `elapsed` more frames: it
/// advances by `elapsed` and goes back by one cycle once past its end.
pub fn advance_frame(cur_frame: u32, elapsed: u32) -> (next: u32)
    requires
        cur_frame + elapsed <= u32::MAX,
    ensures
        next == if cur_frame + elapsed > FRAMES { cur_frame + elapsed - FRAMES } else { cur_frame + elapsed },
        cur_frame <= FRAMES && elapsed <= FRAMES ==> next <= FRAMES,
{
    let mut next = cur_frame + elapsed;
    if next > FRAMES {
        next -= FRAMES;
    }
    next
}

fn fade_channel(c: u8, amount: u8) -> (r: u8)
    ensures
        r == faded(c, amount as int),
{
    if c != 0 {
        if c >= amount {
            c - amount
        } else {
            0
        }
    } else {
        0
    }
}

/// A new `WIDTH` x `HEIGHT` frame: a copy of `prev_image` whose colour
/// channels have faded by `frame_count * DECAY` and whose pixels are all
/// opaque, or an opaque black frame when there is no previous image.
pub fn prepare_next_frame(prev_image: Option<RgbaFrame>, frame_count: u8) -> (image: RgbaFrame)
    requires
        frame_count * DECAY <= u8::MAX,
        prev_image matches Some(p) ==> rgba_dims(p).0 >= WIDTH && rgba_dims(p).1 >= HEIGHT,
    ensures
        rgba_dims(image) == (WIDTH, HEIGHT),
        rgba_data(image).len() == 4 * WIDTH * HEIGHT,
        forall|x: int, y: int| 0 <= x < WIDTH && 0 <= y < HEIGHT ==>
            #[trigger] pixel_at(rgba_data(image), WIDTH as int, x, y) == next_pixel(prev_image, frame_count, x, y),
{
    let mut image = RgbaFrame::new(WIDTH, HEIGHT);
    let amount: u8 = frame_count * (DECAY as u8);
    let dims: Ghost<(u32, u32)> = Ghost((WIDTH, HEIGHT));
    let mut x: u32 = 0;
    while x < WIDTH
        invariant
            x <= WIDTH,
            amount == frame_count * DECAY,
            prev_image matches Some(p) ==> rgba_dims(p).0 >= WIDTH && rgba_dims(p).1 >= HEIGHT,
            dims@ == (WIDTH, HEIGHT),
            rgba_dims(image) == dims@,
            rgba_data(image).len() == 4 * WIDTH * HEIGHT,
            forall|x2: int, y2: int| 0 <= x2 < x && 0 <= y2 < HEIGHT ==>
                #[trigger] pixel_at(rgba_data(image), WIDTH as int, x2, y2) == next_pixel(prev_image, frame_count, x2, y2),
        decreases WIDTH - x,
    {
        let mut y: u32 = 0;
        while y < HEIGHT
            invariant
                x < WIDTH,
                y <= HEIGHT,
                amount == frame_count * DECAY,
                prev_image matches Some(p) ==> rgba_dims(p).0 >= WIDTH && rgba_dims(p).1 >= HEIGHT,
                dims@ == (WIDTH, HEIGHT),
                rgba_dims(image) == dims@,
                rgba_data(image).len() == 4 * WIDTH * HEIGHT,
                forall|x2: int, y2: int| ((0 <= x2 < x && 0 <= y2 < HEIGHT) || (x2 == x && 0 <= y2 < y)) ==>
                    #[trigger] pixel_at(rgba_data(image), WIDTH as int, x2, y2) == next_pixel(prev_image, frame_count, x2, y2),
            decreases HEIGHT - y,
        {
            let c: [u8; 4] = match &prev_image {
                Some(prev) => {
                    let pix_col = prev.get_pixel(x, y);
                    [fade_channel(pix_col[0], amount), fade_channel(pix_col[1], amount),
                     fade_channel(pix_col[2], amount), 255]
                },
                None => [0, 0, 0, 255],
            };
            assert(c@ == next_pixel(prev_image, frame_count, x as int, y as int));
            let ghost before = rgba_data(image);
            image.put_pixel(x, y, c);
            assert forall|x2: int, y2: int| ((0 <= x2 < x && 0 <= y2 < HEIGHT) || (x2 == x && 0 <= y2 < y + 1)) implies
                #[trigger] pixel_at(rgba_data(image), WIDTH as int, x2, y2) == next_pixel(prev_image, frame_count, x2, y2) by {
                lemma_with_pixel(dims@, before, x as int, y as int, c@, x2, y2);
            }
            y += 1;
        }
        x += 1;
    }
    image
}

} // verus!
