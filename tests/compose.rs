use fractal_gen::compose::{
    concentric_circles, draw_circles, draw_concentric_circles, draw_nested_squares,
    draw_radial_pattern, next_petal_count, next_square_count, radial_circles, ring_radius,
    square_size, Circle,
};
use fractal_gen::pixels::{get_pixel, new_frame, Color};
use fractal_gen::raster::{Point, SUBPIXEL};
use fractal_gen::render::{pattern_mode, render_concentric, PatternMode};
use fractal_gen::rng::Rng;

fn palette() -> Vec<Color> {
    vec![
        Color { r: 240, g: 245, b: 250, a: 255 },
        Color { r: 60, g: 120, b: 180, a: 255 },
        Color { r: 80, g: 150, b: 190, a: 255 },
        Color { r: 100, g: 170, b: 200, a: 255 },
        Color { r: 130, g: 190, b: 210, a: 255 },
    ]
}

#[test]
fn rng_is_a_linear_congruential_stream() {
    let mut rng = Rng::new(1);
    assert_eq!(rng.next(), 6364136223846793006);
    let mut a = Rng::new(12345);
    let mut b = Rng::new(12345);
    for _ in 0..10 {
        assert_eq!(a.next(), b.next());
    }
    let mut c = Rng::new(12345);
    assert_eq!(c.next(), 578673459679314182);
}

#[test]
fn pattern_mode_cycles_by_three() {
    assert_eq!(pattern_mode(0), PatternMode::ConcentricCircles);
    assert_eq!(pattern_mode(4), PatternMode::NestedSquares);
    assert_eq!(pattern_mode(578673459679314182), PatternMode::RadialPattern);
}

#[test]
fn counts_come_from_one_draw() {
    let mut rng = Rng::new(12345);
    assert_eq!(next_square_count(&mut rng), 4 + (578673459679314182u64 % 3) as usize);
    let mut rng = Rng::new(12345);
    assert_eq!(next_petal_count(&mut rng), 6 + (578673459679314182u64 % 6) as usize);
    assert_eq!(rng.state, 578673459679314182);
}

#[test]
fn concentric_layout_is_largest_first() {
    let pal = palette();
    let cs = concentric_circles(800, 800, 5, &pal);
    let radii: Vec<i32> = cs.iter().map(|c| c.radius).collect();
    assert_eq!(radii, vec![92160, 73728, 55296, 36864, 18432]);
    let center = Point { x: 400 * SUBPIXEL as i32, y: 400 * SUBPIXEL as i32 };
    assert!(cs.iter().all(|c| c.center == center));
    // circle i takes palette[1 + i % 4]; drawing order is i = 4, 3, 2, 1, 0
    assert_eq!(cs[0].color, pal[1]);
    assert_eq!(cs[1].color, pal[4]);
    assert_eq!(cs[4].color, pal[1]);
}

#[test]
fn concentric_circles_nest() {
    let pal = palette();
    let mut buf = new_frame(100, 60, pal[0]);
    let mut rng = Rng::new(12345);
    draw_concentric_circles(&mut buf, 100, 60, &mut rng, &pal);
    // seven circles; the smallest (index 0) sits on top at the center
    assert_eq!(get_pixel(&buf, 100, 60, 50, 30), pal[1]);
    // max radius 27 px: a pixel 26 px out lies only in the largest (index 6)
    assert_eq!(get_pixel(&buf, 100, 60, 76, 30), pal[3]);
    assert_eq!(get_pixel(&buf, 100, 60, 0, 0), pal[0]);
}

#[test]
fn draw_circles_paints_in_order() {
    let red = Color { r: 255, g: 0, b: 0, a: 255 };
    let green = Color { r: 0, g: 255, b: 0, a: 255 };
    let bg = Color { r: 0, g: 0, b: 0, a: 0 };
    let mut buf = new_frame(20, 20, bg);
    let cs = vec![
        Circle { center: Point { x: 2560, y: 2560 }, radius: 2048, color: red },
        Circle { center: Point { x: 2560, y: 2560 }, radius: 512, color: green },
    ];
    draw_circles(&mut buf, 20, 20, &cs);
    assert_eq!(get_pixel(&buf, 20, 20, 10, 10), green);
    assert_eq!(get_pixel(&buf, 20, 20, 12, 10), green);
    assert_eq!(get_pixel(&buf, 20, 20, 13, 10), red);
    assert_eq!(get_pixel(&buf, 20, 20, 19, 10), bg);
}

#[test]
fn square_sizes_shrink_linearly() {
    assert_eq!(square_size(800, 800, 4, 3), 143360);
    assert_eq!(square_size(800, 800, 4, 0), 35840);
    assert_eq!(square_size(800, 600, 5, 4), 600 * 256 * 70 / 100);
}

#[test]
fn nested_squares_take_cycled_colors() {
    let pal = palette();
    let mut buf = new_frame(20, 20, pal[0]);
    let sq = |lo: i32, hi: i32| {
        vec![
            Point { x: lo * 256, y: lo * 256 },
            Point { x: hi * 256, y: lo * 256 },
            Point { x: hi * 256, y: hi * 256 },
            Point { x: lo * 256, y: hi * 256 },
        ]
    };
    let outlines = vec![sq(2, 18), sq(6, 14)];
    draw_nested_squares(&mut buf, 20, 20, &outlines, &pal);
    // outline 0 is square 1 (palette[2]), outline 1 is square 0 (palette[1])
    assert_eq!(get_pixel(&buf, 20, 20, 3, 3), pal[2]);
    assert_eq!(get_pixel(&buf, 20, 20, 10, 10), pal[1]);
    assert_eq!(get_pixel(&buf, 20, 20, 1, 1), pal[0]);
}

#[test]
fn radial_layout_ends_with_the_center_disk() {
    let pal = palette();
    assert_eq!(ring_radius(800, 800), 71680);
    let centers = vec![Point { x: 1000, y: 2000 }, Point { x: 3000, y: 4000 }];
    let cs = radial_circles(800, 800, &centers, &pal);
    assert_eq!(cs.len(), 3);
    assert_eq!(cs[0], Circle { center: centers[0], radius: 28672, color: pal[1] });
    assert_eq!(cs[1], Circle { center: centers[1], radius: 28672, color: pal[2] });
    assert_eq!(
        cs[2],
        Circle { center: Point { x: 102400, y: 102400 }, radius: 21504, color: pal[1] }
    );
}

#[test]
fn radial_center_disk_lies_on_top() {
    let pal = palette();
    let mut buf = new_frame(100, 100, pal[0]);
    let centers = vec![Point { x: 50 * 256, y: 50 * 256 }];
    draw_radial_pattern(&mut buf, 100, 100, &centers, &pal);
    assert_eq!(get_pixel(&buf, 100, 100, 50, 50), pal[1]);
    // petal radius 14 px, center disk 10 px: a pixel 12 px out is the petal's
    let petal = get_pixel(&buf, 100, 100, 62, 50);
    assert_eq!(petal, pal[1]);
    assert_eq!(get_pixel(&buf, 100, 100, 65, 50), pal[0]);
}

#[test]
fn end_to_end_concentric_render() {
    let pal = palette();
    let mut rng = Rng::new(12345);
    let img = render_concentric(&mut rng, 800, 800, &pal);
    assert_eq!(img.len(), 800 * 800 * 4);
    // seven circles, outermost 360 px: a pixel 340 px right of center is in the outer ring
    assert_eq!(get_pixel(&img, 800, 800, 740, 400), pal[1 + 6 % 4]);
    assert_eq!(get_pixel(&img, 800, 800, 0, 0), pal[0]);
    assert_eq!(get_pixel(&img, 800, 800, 799, 799), pal[0]);
    assert_eq!(get_pixel(&img, 800, 800, 400, 400), pal[1]);
}

#[test]
fn render_is_deterministic() {
    let pal = palette();
    let a = render_concentric(&mut Rng::new(777), 120, 90, &pal);
    let b = render_concentric(&mut Rng::new(777), 120, 90, &pal);
    assert_eq!(a, b);
}
