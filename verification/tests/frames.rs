use generative_art::frame::{advance_frame, is_captured_frame, prepare_next_frame, FRAMES, HEIGHT, WIDTH};
use generative_art::pixels::RgbaFrame;
use generative_art::draw_tools::{draw_square, Location};
use generative_art::user::{clear_background, get_initial_state};
use generative_art::utils::rgba8_to_rgb8;

#[test]
fn new_frame_is_all_zero() {
    let f = RgbaFrame::new(3, 2);
    assert_eq!(f.dimensions(), (3, 2));
    assert_eq!(f.as_raw().len(), 24);
    assert!(f.as_raw().iter().all(|&b| b == 0));
}

#[test]
fn put_pixel_writes_row_major_samples() {
    let mut f = RgbaFrame::new(3, 2);
    f.put_pixel(1, 1, [1, 2, 3, 4]);
    assert_eq!(f.get_pixel(1, 1), [1, 2, 3, 4]);
    assert_eq!(f.get_pixel(0, 1), [0, 0, 0, 0]);
    assert_eq!(&f.as_raw()[16..20], &[1, 2, 3, 4]);
    let g = f.clone();
    assert_eq!(g.as_raw(), f.as_raw());
    assert_eq!(g.dimensions(), (3, 2));
}

#[test]
fn first_frame_is_opaque_black() {
    let f = prepare_next_frame(None, 1);
    assert_eq!(f.dimensions(), (WIDTH, HEIGHT));
    assert_eq!(f.get_pixel(0, 0), [0, 0, 0, 255]);
    assert_eq!(f.get_pixel(299, 299), [0, 0, 0, 255]);
    assert_eq!(f.get_pixel(150, 7), [0, 0, 0, 255]);
}

#[test]
fn next_frame_fades_colours_and_restores_alpha() {
    let mut f = prepare_next_frame(None, 1);
    f.put_pixel(10, 20, [100, 3, 255, 7]);
    f.put_pixel(11, 20, [6, 5, 0, 0]);
    let g = prepare_next_frame(Some(f), 1);
    assert_eq!(g.get_pixel(10, 20), [94, 0, 249, 255]);
    assert_eq!(g.get_pixel(11, 20), [0, 0, 0, 255]);
    assert_eq!(g.get_pixel(12, 20), [0, 0, 0, 255]);
}

#[test]
fn fading_twice_equals_fading_by_the_sum() {
    let mut f = prepare_next_frame(None, 1);
    f.put_pixel(5, 5, [200, 13, 100, 255]);
    let once = prepare_next_frame(Some(prepare_next_frame(Some(f.clone()), 1)), 2);
    let all = prepare_next_frame(Some(f), 3);
    assert_eq!(once.get_pixel(5, 5), all.get_pixel(5, 5));
    assert_eq!(all.get_pixel(5, 5), [182, 0, 82, 255]);
}

#[test]
fn largest_frame_count_fades_by_252() {
    let mut f = prepare_next_frame(None, 1);
    f.put_pixel(0, 0, [255, 252, 251, 9]);
    let g = prepare_next_frame(Some(f), 42);
    assert_eq!(g.get_pixel(0, 0), [3, 0, 0, 255]);
}

#[test]
fn zero_frame_count_keeps_colours() {
    let mut f = prepare_next_frame(None, 1);
    f.put_pixel(299, 0, [9, 8, 7, 6]);
    let g = prepare_next_frame(Some(f), 0);
    assert_eq!(g.get_pixel(299, 0), [9, 8, 7, 255]);
}

#[test]
fn larger_previous_frame_is_cropped_to_the_canvas() {
    let mut f = RgbaFrame::new(400, 310);
    f.put_pixel(299, 309, [50, 50, 50, 50]);
    f.put_pixel(350, 5, [50, 50, 50, 50]);
    f.put_pixel(3, 299, [60, 70, 80, 90]);
    let g = prepare_next_frame(Some(f), 1);
    assert_eq!(g.dimensions(), (300, 300));
    assert_eq!(g.get_pixel(3, 299), [54, 64, 74, 255]);
}

#[test]
fn captured_frames_are_the_middle_cycle() {
    assert!(!is_captured_frame(0));
    assert!(!is_captured_frame(FRAMES / 2 - 1));
    assert!(is_captured_frame(FRAMES / 2));
    assert!(is_captured_frame(FRAMES * 3 / 2 - 1));
    assert!(!is_captured_frame(FRAMES * 3 / 2));
    assert_eq!((0..FRAMES * 3 / 2).filter(|&f| is_captured_frame(f)).count(), FRAMES as usize);
}

#[test]
fn frame_counter_wraps_past_the_cycle() {
    assert_eq!(advance_frame(350, 20), 10);
    assert_eq!(advance_frame(350, 10), 360);
    assert_eq!(advance_frame(0, 1), 1);
    assert_eq!(advance_frame(360, 360), 360);
    assert_eq!(advance_frame(10, 1000), 650);
}

#[test]
fn initial_state_is_empty() {
    let _state = get_initial_state();
}

#[test]
fn background_covers_the_canvas_only() {
    let mut f = RgbaFrame::new(305, 300);
    clear_background(&mut f, [105, 180, 255, 255]);
    assert_eq!(f.get_pixel(0, 0), [105, 180, 255, 255]);
    assert_eq!(f.get_pixel(299, 299), [105, 180, 255, 255]);
    assert_eq!(f.get_pixel(300, 10), [0, 0, 0, 0]);
    assert_eq!(f.get_pixel(304, 299), [0, 0, 0, 0]);
}

#[test]
fn rgb_conversion_drops_alpha() {
    let mut f = RgbaFrame::new(300, 300);
    draw_square(&mut f, [1, 2, 3, 4], &Location { x: 1, y: 1 }, 2);
    f.put_pixel(299, 299, [7, 8, 9, 10]);
    let rgb = rgba8_to_rgb8(f);
    let raw = rgb.as_raw();
    assert_eq!(raw.len(), 300 * 300 * 3);
    assert_eq!(&raw[0..3], &[1, 2, 3]);
    assert_eq!(&raw[3..6], &[1, 2, 3]);
    assert_eq!(&raw[6..9], &[0, 0, 0]);
    assert_eq!(&raw[900..903], &[1, 2, 3]);
    assert_eq!(&raw[raw.len() - 3..], &[7, 8, 9]);
}

#[test]
fn rgb_conversion_of_small_and_empty_frames() {
    let mut f = RgbaFrame::new(2, 1);
    f.put_pixel(0, 0, [10, 20, 30, 40]);
    f.put_pixel(1, 0, [50, 60, 70, 80]);
    assert_eq!(rgba8_to_rgb8(f).as_raw(), &vec![10, 20, 30, 50, 60, 70]);
    let empty = RgbaFrame::new(0, 5);
    assert_eq!(rgba8_to_rgb8(empty).as_raw().len(), 0);
}
