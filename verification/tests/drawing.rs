use generative_art::draw_tools::{
    draw_line, draw_square, draw_triangle_from_points, fill_triangle_rows, sort_points_by_y, Location,
};
use generative_art::frame::prepare_next_frame;
use generative_art::pixels::RgbaFrame;

const RED: [u8; 4] = [255, 0, 0, 255];
const BLUE: [u8; 4] = [0, 0, 255, 255];
const BLACK: [u8; 4] = [0, 0, 0, 255];

fn canvas() -> RgbaFrame {
    prepare_next_frame(None, 1)
}

#[test]
fn square_covers_half_open_range() {
    let mut f = canvas();
    draw_square(&mut f, RED, &Location { x: 10, y: 10 }, 4);
    for x in 8..12 {
        for y in 8..12 {
            assert_eq!(f.get_pixel(x, y), RED);
        }
    }
    assert_eq!(f.get_pixel(12, 10), BLACK);
    assert_eq!(f.get_pixel(10, 12), BLACK);
    assert_eq!(f.get_pixel(7, 10), BLACK);
}

#[test]
fn odd_square_size_rounds_down() {
    let mut f = canvas();
    draw_square(&mut f, RED, &Location { x: 10, y: 10 }, 5);
    assert_eq!(f.get_pixel(8, 8), RED);
    assert_eq!(f.get_pixel(11, 11), RED);
    assert_eq!(f.get_pixel(12, 12), BLACK);
}

#[test]
fn tiny_square_draws_nothing() {
    let mut f = canvas();
    draw_square(&mut f, RED, &Location { x: 0, y: 0 }, 1);
    assert_eq!(f.get_pixel(0, 0), BLACK);
}

#[test]
fn square_is_clipped_to_the_canvas() {
    let mut f = RgbaFrame::new(302, 302);
    draw_square(&mut f, RED, &Location { x: 299, y: 299 }, 4);
    assert_eq!(f.get_pixel(297, 297), RED);
    assert_eq!(f.get_pixel(299, 299), RED);
    assert_eq!(f.get_pixel(300, 299), [0, 0, 0, 0]);
    assert_eq!(f.get_pixel(299, 300), [0, 0, 0, 0]);
}

#[test]
fn line_follows_bresenham() {
    let mut f = canvas();
    draw_line(&mut f, RED, (0, 0), (5, 6));
    for (x, y) in [(0, 0), (0, 1), (1, 2), (2, 3), (3, 4), (4, 5), (5, 6)] {
        assert_eq!(f.get_pixel(x, y), RED);
    }
    assert_eq!(f.get_pixel(1, 1), BLACK);
    assert_eq!(f.get_pixel(5, 5), BLACK);
}

#[test]
fn line_includes_both_ends_backwards() {
    let mut f = canvas();
    draw_line(&mut f, RED, (20, 7), (3, 2));
    assert_eq!(f.get_pixel(20, 7), RED);
    assert_eq!(f.get_pixel(3, 2), RED);
}

#[test]
fn line_is_clipped_to_the_canvas() {
    let mut f = canvas();
    draw_line(&mut f, RED, (-5, 10), (5, 10));
    for x in 0..=5 {
        assert_eq!(f.get_pixel(x, 10), RED);
    }
    assert_eq!(f.get_pixel(6, 10), BLACK);
    draw_line(&mut f, BLUE, (290, 299), (320, 299));
    assert_eq!(f.get_pixel(299, 299), BLUE);
    draw_line(&mut f, BLUE, (-50, -50), (-10, -3));
    assert_eq!(f.get_pixel(0, 0), BLACK);
}

#[test]
fn single_point_line() {
    let mut f = canvas();
    draw_line(&mut f, BLUE, (4, 4), (4, 4));
    assert_eq!(f.get_pixel(4, 4), BLUE);
    assert_eq!(f.get_pixel(5, 4), BLACK);
}

#[test]
fn triangle_outline_draws_three_sides() {
    let mut f = canvas();
    draw_triangle_from_points(&mut f, RED, (10, 10), (20, 10), (10, 20));
    assert_eq!(f.get_pixel(10, 10), RED);
    assert_eq!(f.get_pixel(20, 10), RED);
    assert_eq!(f.get_pixel(10, 20), RED);
    assert_eq!(f.get_pixel(15, 10), RED);
    assert_eq!(f.get_pixel(10, 15), RED);
    assert_eq!(f.get_pixel(15, 15), RED);
    assert_eq!(f.get_pixel(12, 12), BLACK);
}

#[test]
fn sort_is_stable_by_y() {
    assert_eq!(sort_points_by_y([(0, 5), (1, 2), (3, 2)]), [(1, 2), (3, 2), (0, 5)]);
    assert_eq!(sort_points_by_y([(9, 1), (8, 1), (7, 1)]), [(9, 1), (8, 1), (7, 1)]);
    assert_eq!(sort_points_by_y([(0, 3), (0, 2), (0, 1)]), [(0, 1), (0, 2), (0, 3)]);
    assert_eq!(sort_points_by_y([(0, 1), (0, 3), (0, 2)]), [(0, 1), (0, 2), (0, 3)]);
}

#[test]
fn filled_triangle_rows_and_outline() {
    let mut f = canvas();
    let (p1, p2, p3) = ((10, 10), (30, 20), (10, 30));
    let points = sort_points_by_y([p1, p2, p3]);
    assert_eq!(points, [p1, p2, p3]);
    let upper: Vec<(i32, i32)> = (10..=20).map(|y| (10, 10 + 2 * (y - 10))).collect();
    let lower: Vec<(i32, i32)> = (20..=30).map(|y| (10, 30 - 2 * (y - 20))).collect();
    fill_triangle_rows(&mut f, RED, BLUE, p1, p2, p3, points, &upper, &lower);
    assert_eq!(f.get_pixel(15, 15), BLUE);
    assert_eq!(f.get_pixel(20, 20), BLUE);
    assert_eq!(f.get_pixel(12, 28), BLUE);
    assert_eq!(f.get_pixel(10, 10), RED);
    assert_eq!(f.get_pixel(30, 20), RED);
    assert_eq!(f.get_pixel(10, 30), RED);
    assert_eq!(f.get_pixel(10, 20), RED);
    assert_eq!(f.get_pixel(40, 20), BLACK);
}
