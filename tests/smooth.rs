use fractal_gen::pixels::{get_pixel, new_frame, set_pixel, Color};
use fractal_gen::smooth::antialias;

const A: Color = Color { r: 0, g: 0, b: 0, a: 255 };
const B: Color = Color { r: 200, g: 100, b: 40, a: 255 };

fn step(w: u32, h: u32, boundary: u32) -> Vec<u8> {
    let mut buf = new_frame(w, h, A);
    for y in 0..h {
        for x in boundary..w {
            set_pixel(&mut buf, w, h, x, y, B);
        }
    }
    buf
}

#[test]
fn uniform_frame_is_unchanged() {
    let c = Color { r: 12, g: 34, b: 56, a: 200 };
    let mut buf = new_frame(7, 5, c);
    antialias(&mut buf, 7, 5);
    assert_eq!(buf, new_frame(7, 5, c));
}

#[test]
fn step_boundary_is_blended_and_far_columns_kept() {
    let mut buf = step(8, 6, 4);
    antialias(&mut buf, 8, 6);
    for y in 1..5u32 {
        assert_eq!(get_pixel(&buf, 8, 6, 3, y), Color { r: 50, g: 25, b: 10, a: 255 });
        assert_eq!(get_pixel(&buf, 8, 6, 4, y), Color { r: 150, g: 75, b: 30, a: 255 });
    }
    for y in 0..6u32 {
        for x in [0u32, 1, 2, 5, 6, 7] {
            let expected = if x < 4 { A } else { B };
            assert_eq!(get_pixel(&buf, 8, 6, x, y), expected);
        }
    }
}

#[test]
fn edge_rows_keep_the_full_divisor() {
    let mut buf = step(8, 6, 4);
    antialias(&mut buf, 8, 6);
    // the missing row above contributes nothing, yet the sum is still divided by 16
    assert_eq!(get_pixel(&buf, 8, 6, 3, 0), Color { r: 37, g: 18, b: 7, a: 191 });
    assert_eq!(get_pixel(&buf, 8, 6, 4, 0), Color { r: 112, g: 56, b: 22, a: 191 });
}

#[test]
fn small_differences_are_not_edges() {
    let mut buf = new_frame(4, 4, A);
    let near = Color { r: 20, g: 20, b: 20, a: 255 };
    for y in 0..4u32 {
        set_pixel(&mut buf, 4, 4, 3, y, near);
    }
    let before = buf.clone();
    antialias(&mut buf, 4, 4);
    assert_eq!(buf, before);
}

#[test]
fn reads_see_the_frame_before_the_pass() {
    // a single bright pixel: each neighbor is blurred from the original values
    let mut buf = new_frame(3, 3, A);
    let white = Color { r: 255, g: 255, b: 255, a: 255 };
    set_pixel(&mut buf, 3, 3, 1, 1, white);
    antialias(&mut buf, 3, 3);
    assert_eq!(get_pixel(&buf, 3, 3, 1, 1), Color { r: 63, g: 63, b: 63, a: 255 });
    assert_eq!(get_pixel(&buf, 3, 3, 0, 0), Color { r: 15, g: 15, b: 15, a: 143 });
    assert_eq!(get_pixel(&buf, 3, 3, 1, 0), Color { r: 31, g: 31, b: 31, a: 191 });
}
