use fractal_gen::pixels::{get_pixel, new_frame, Color};
use fractal_gen::raster::{draw_circle, draw_filled_polygon, Point, SUBPIXEL};

const BG: Color = Color { r: 240, g: 240, b: 250, a: 255 };
const RED: Color = Color { r: 200, g: 30, b: 30, a: 255 };
const BLUE: Color = Color { r: 20, g: 40, b: 220, a: 255 };

fn at(px: i32, py: i32) -> Point {
    Point { x: px * SUBPIXEL as i32, y: py * SUBPIXEL as i32 }
}

#[test]
fn circle_fills_closed_disk() {
    let mut buf = new_frame(20, 20, BG);
    draw_circle(&mut buf, 20, 20, at(10, 10), 5 * SUBPIXEL as i32, RED);
    for y in 0..20u32 {
        for x in 0..20u32 {
            let dx = x as i64 - 10;
            let dy = y as i64 - 10;
            let expected = if dx * dx + dy * dy <= 25 { RED } else { BG };
            assert_eq!(get_pixel(&buf, 20, 20, x, y), expected, "pixel {} {}", x, y);
        }
    }
    // the boundary is inclusive on every side
    assert_eq!(get_pixel(&buf, 20, 20, 15, 10), RED);
    assert_eq!(get_pixel(&buf, 20, 20, 10, 15), RED);
    assert_eq!(get_pixel(&buf, 20, 20, 5, 10), RED);
    assert_eq!(get_pixel(&buf, 20, 20, 16, 10), BG);
}

#[test]
fn circle_outside_radius_plus_one_stays_background() {
    let mut buf = new_frame(40, 40, BG);
    draw_circle(&mut buf, 40, 40, at(20, 20), 7 * SUBPIXEL as i32 + 100, BLUE);
    for y in 0..40u32 {
        for x in 0..40u32 {
            let dx = x as i64 - 20;
            let dy = y as i64 - 20;
            if dx * dx + dy * dy > 64 {
                assert_eq!(get_pixel(&buf, 40, 40, x, y), BG);
            }
            if dx * dx + dy * dy <= 49 {
                assert_eq!(get_pixel(&buf, 40, 40, x, y), BLUE);
            }
        }
    }
}

#[test]
fn circle_with_nonpositive_radius_draws_nothing() {
    let mut buf = new_frame(10, 10, BG);
    draw_circle(&mut buf, 10, 10, at(5, 5), 0, RED);
    draw_circle(&mut buf, 10, 10, at(5, 5), -300, RED);
    assert_eq!(buf, new_frame(10, 10, BG));
}

#[test]
fn circle_is_clamped_to_the_frame() {
    let mut buf = new_frame(10, 8, BG);
    draw_circle(&mut buf, 10, 8, at(0, 0), 3 * SUBPIXEL as i32, RED);
    draw_circle(&mut buf, 10, 8, at(30, 30), 2 * SUBPIXEL as i32, RED);
    assert_eq!(buf.len(), 10 * 8 * 4);
    assert_eq!(get_pixel(&buf, 10, 8, 0, 0), RED);
    assert_eq!(get_pixel(&buf, 10, 8, 3, 0), RED);
    assert_eq!(get_pixel(&buf, 10, 8, 2, 2), RED);
    assert_eq!(get_pixel(&buf, 10, 8, 3, 1), BG);
    assert_eq!(get_pixel(&buf, 10, 8, 9, 7), BG);
}

#[test]
fn later_circle_overwrites_earlier_one() {
    let mut buf = new_frame(30, 30, BG);
    draw_circle(&mut buf, 30, 30, at(15, 15), 10 * SUBPIXEL as i32, RED);
    draw_circle(&mut buf, 30, 30, at(15, 15), 4 * SUBPIXEL as i32, BLUE);
    assert_eq!(get_pixel(&buf, 30, 30, 15, 15), BLUE);
    assert_eq!(get_pixel(&buf, 30, 30, 19, 15), BLUE);
    assert_eq!(get_pixel(&buf, 30, 30, 20, 15), RED);
    assert_eq!(get_pixel(&buf, 30, 30, 25, 15), RED);
    assert_eq!(get_pixel(&buf, 30, 30, 26, 15), BG);
}

#[test]
fn axis_aligned_square_fills_its_spans() {
    let mut buf = new_frame(10, 10, BG);
    let pts = vec![at(2, 2), at(6, 2), at(6, 6), at(2, 6)];
    draw_filled_polygon(&mut buf, 10, 10, &pts, RED);
    for y in 0..10u32 {
        for x in 0..10u32 {
            let inside = (2..6).contains(&y) && (2..=6).contains(&x);
            let expected = if inside { RED } else { BG };
            assert_eq!(get_pixel(&buf, 10, 10, x, y), expected, "pixel {} {}", x, y);
        }
    }
}

#[test]
fn diamond_matches_even_odd_scanlines() {
    let mut buf = new_frame(12, 12, BG);
    let pts = vec![at(5, 1), at(9, 5), at(5, 9), at(1, 5)];
    draw_filled_polygon(&mut buf, 12, 12, &pts, BLUE);
    // independent computation: on scanline y the diamond spans |x - 5| <= 4 - |y - 5|
    for y in 0..12i32 {
        for x in 0..12i32 {
            let inside = (1..9).contains(&y) && (x - 5).abs() <= 4 - (y - 5).abs();
            let expected = if inside { BLUE } else { BG };
            assert_eq!(get_pixel(&buf, 12, 12, x as u32, y as u32), expected, "pixel {} {}", x, y);
        }
    }
}

#[test]
fn polygon_with_fewer_than_three_points_fills_nothing() {
    let mut buf = new_frame(8, 8, BG);
    draw_filled_polygon(&mut buf, 8, 8, &[at(1, 1), at(6, 6)], RED);
    draw_filled_polygon(&mut buf, 8, 8, &[], RED);
    assert_eq!(buf, new_frame(8, 8, BG));
}

#[test]
fn polygon_spans_are_clamped_to_the_frame() {
    let mut buf = new_frame(6, 6, BG);
    let pts = vec![at(-4, -4), at(20, -4), at(20, 3), at(-4, 3)];
    draw_filled_polygon(&mut buf, 6, 6, &pts, RED);
    for y in 0..6u32 {
        for x in 0..6u32 {
            let expected = if y < 3 { RED } else { BG };
            assert_eq!(get_pixel(&buf, 6, 6, x, y), expected);
        }
    }
}

#[test]
fn fractional_edges_round_down() {
    let mut buf = new_frame(10, 4, BG);
    // left edge at x = 1.5 px, right edge at x = 4.75 px, rows 0 to 2
    let pts = vec![
        Point { x: 384, y: 0 },
        Point { x: 1216, y: 0 },
        Point { x: 1216, y: 768 },
        Point { x: 384, y: 768 },
    ];
    draw_filled_polygon(&mut buf, 10, 4, &pts, RED);
    for x in 0..10u32 {
        let expected = if (1..=4).contains(&x) { RED } else { BG };
        assert_eq!(get_pixel(&buf, 10, 4, x, 1), expected);
    }
    assert_eq!(get_pixel(&buf, 10, 4, 2, 3), BG);
}
