use vstd::prelude::*;
use crate::pixels::{in_frame, is_frame, pixel_at, Color};
use crate::raster::{draw_circle, draw_filled_polygon, in_disk, in_polygon, Point, SUBPIXEL};
use crate::rng::{lcg_step, Rng};

verus! {

/// Largest frame side the fixed-point coordinates of the composers can hold.
pub const MAX_SIDE: u32 = 4194304;

/// A filled disk to be painted.
#[derive(Clone, Copy, Debug, PartialEq, Eq, Structural)]
pub struct Circle {
    pub center: Point,
    pub radius: i32,
    pub color: Color,
}

/// The color of `(x, y)` after painting the first `k` circles of `cs` in order
/// over `buf`: the last circle that covers the pixel wins, else it keeps its color.
pub open spec fn painted(cs: Seq<Circle>, k: int, buf: Seq<u8>, w: int, x: int, y: int) -> Color
    decreases k,
{
    if k <= 0 {
        pixel_at(buf, w, x, y)
    } else if in_disk(cs[k - 1].center, cs[k - 1].radius as int, x, y) {
        cs[k - 1].color
    } else {
        painted(cs, k - 1, buf, w, x, y)
    }
}

/// Paints the circles one after another, each over what came before.
pub fn draw_circles(buffer: &mut [u8], width: u32, height: u32, circles: &Vec<Circle>)
    requires
        is_frame(old(buffer)@, width as int, height as int),
        width as int * height as int * 4 <= usize::MAX,
    ensures
        final(buffer)@.len() == old(buffer)@.len(),
        forall|x: int, y: int|
            in_frame(width as int, height as int, x, y) ==> #[trigger] pixel_at(
                final(buffer)@,
                width as int,
                x,
                y,
            ) == painted(circles@, circles@.len() as int, old(buffer)@, width as int, x, y),
{
    let ghost w = width as int;
    let ghost h = height as int;
    let mut k: usize = 0;
    while k < circles.len()
        invariant
            is_frame(buffer@, w, h),
            w == width,
            h == height,
            width as int * height as int * 4 <= usize::MAX,
            k <= circles@.len(),
            forall|x: int, y: int|
                in_frame(w, h, x, y) ==> #[trigger] pixel_at(buffer@, w, x, y) == painted(
                    circles@,
                    k as int,
                    old(buffer)@,
                    w,
                    x,
                    y,
                ),
        decreases circles@.len() - k,
    {
        let c = circles[k];
        draw_circle(buffer, width, height, c.center, c.radius, c.color);
        k = k + 1;
    }
}

/// The center of a `w` by `h` frame, in fixed-point units.
pub open spec fn frame_center(w: int, h: int) -> Point {
    Point { x: (w * SUBPIXEL / 2) as i32, y: (h * SUBPIXEL / 2) as i32 }
}

pub open spec fn min_side(w: int, h: int) -> int {
    if w < h {
        w
    } else {
        h
    }
}

/// Radius of the outermost concentric circle: 45% of the shorter side.
pub open spec fn concentric_max_radius(w: int, h: int) -> int {
    min_side(w, h) * SUBPIXEL * 45 / 100
}

/// Foreground color `i`: the palette entries after the background, in turn.
pub open spec fn cycle_color(palette: Seq<Color>, i: int) -> Color {
    palette[1 + i % (palette.len() - 1)]
}

/// The `n` concentric circles in drawing order, largest first: the circle of
/// index `i` has radius `max * (i + 1) / n` and foreground color `i`.
pub open spec fn concentric_layout(w: int, h: int, n: int, palette: Seq<Color>) -> Seq<Circle> {
    Seq::new(
        n as nat,
        |k: int|
            Circle {
                center: frame_center(w, h),
                radius: (concentric_max_radius(w, h) * (n - k) / n) as i32,
                color: cycle_color(palette, n - 1 - k),
            },
    )
}

/// Number of concentric circles that a value of the generator selects: 5 to 8.
pub open spec fn circle_count(v: u64) -> int {
    5 + v % 4
}

fn center_of(width: u32, height: u32) -> (r: Point)
    requires
        width <= MAX_SIDE,
        height <= MAX_SIDE,
    ensures
        r == frame_center(width as int, height as int),
{
    Point { x: (width as i64 * SUBPIXEL / 2) as i32, y: (height as i64 * SUBPIXEL / 2) as i32 }
}

/// The concentric layout for `n` circles.
pub fn concentric_circles(width: u32, height: u32, n: usize, palette: &[Color]) -> (r: Vec<Circle>)
    requires
        width <= MAX_SIDE,
        height <= MAX_SIDE,
        1 <= n <= 8,
        palette@.len() >= 2,
    ensures
        r@ == concentric_layout(width as int, height as int, n as int, palette@),
{
    let side: i64 = if width < height {
        width as i64
    } else {
        height as i64
    };
    let max_radius: i64 = side * SUBPIXEL * 45 / 100;
    let center = center_of(width, height);
    let mut out: Vec<Circle> = Vec::new();
    let mut k: usize = 0;
    while k < n
        invariant
            k <= n <= 8,
            palette@.len() >= 2,
            max_radius == concentric_max_radius(width as int, height as int),
            0 <= max_radius <= MAX_SIDE * SUBPIXEL,
            center == frame_center(width as int, height as int),
            out@ =~= concentric_layout(width as int, height as int, n as int, palette@).subrange(
                0,
                k as int,
            ),
        decreases n - k,
    {
        let i = n - 1 - k;
        assert(max_radius * (n - k) <= MAX_SIDE * SUBPIXEL * 8) by (nonlinear_arith)
            requires
                0 <= max_radius <= MAX_SIDE * SUBPIXEL,
                0 < n - k <= 8,
        ;
        assert(0 <= max_radius * (n - k)) by (nonlinear_arith)
            requires
                0 <= max_radius,
                0 < n - k,
        ;
        let radius: i64 = max_radius * ((n - k) as i64) / (n as i64);
        assert(radius <= max_radius * (n - k)) by (nonlinear_arith)
            requires
                radius == max_radius * (n - k) / (n as int),
                0 <= max_radius * (n - k),
                n >= 1,
        ;
        let color = palette[1 + i % (palette.len() - 1)];
        out.push(Circle { center, radius: radius as i32, color });
        k = k + 1;
    }
    assert(out@ =~= concentric_layout(width as int, height as int, n as int, palette@));
    out
}

/// Draws 5 to 8 concentric circles around the frame center, largest first, so
/// that each smaller one lies on top; the count comes from one step of `rng`.
pub fn draw_concentric_circles(
    buffer: &mut [u8],
    width: u32,
    height: u32,
    rng: &mut Rng,
    palette: &[Color],
)
    requires
        is_frame(old(buffer)@, width as int, height as int),
        width as int * height as int * 4 <= usize::MAX,
        width <= MAX_SIDE,
        height <= MAX_SIDE,
        palette@.len() >= 2,
    ensures
        final(rng).state == lcg_step(old(rng).state),
        final(buffer)@.len() == old(buffer)@.len(),
        forall|x: int, y: int|
            in_frame(width as int, height as int, x, y) ==> #[trigger] pixel_at(
                final(buffer)@,
                width as int,
                x,
                y,
            ) == painted(
                concentric_layout(
                    width as int,
                    height as int,
                    circle_count(final(rng).state),
                    palette@,
                ),
                circle_count(final(rng).state),
                old(buffer)@,
                width as int,
                x,
                y,
            ),
{
    let v = rng.next();
    let n: usize = 5 + (v % 4) as usize;
    let circles = concentric_circles(width, height, n, palette);
    draw_circles(buffer, width, height, &circles);
}

/// Number of nested squares that a value of the generator selects: 4 to 6.
pub open spec fn square_count(v: u64) -> int {
    4 + v % 3
}

/// Number of radial petals that a value of the generator selects: 6 to 11.
pub open spec fn petal_count(v: u64) -> int {
    6 + v % 6
}

/// Draws one value from `rng` and turns it into a count of nested squares.
pub fn next_square_count(rng: &mut Rng) -> (r: usize)
    ensures
        final(rng).state == lcg_step(old(rng).state),
        r == square_count(final(rng).state),
{
    let v = rng.next();
    4 + (v % 3) as usize
}

/// Draws one value from `rng` and turns it into a count of radial petals.
pub fn next_petal_count(rng: &mut Rng) -> (r: usize)
    ensures
        final(rng).state == lcg_step(old(rng).state),
        r == petal_count(final(rng).state),
{
    let v = rng.next();
    6 + (v % 6) as usize
}

/// Side of the largest nested square: 70% of the shorter side.
pub open spec fn max_square_size(w: int, h: int) -> int {
    min_side(w, h) * SUBPIXEL * 70 / 100
}

/// Side of square `i` of `n`, in fixed-point units: the sizes shrink linearly.
pub open spec fn square_size_spec(w: int, h: int, n: int, i: int) -> int {
    max_square_size(w, h) * (i + 1) / n
}

/// Side of square `i` of `n` nested squares, in fixed-point units.
pub fn square_size(width: u32, height: u32, n: usize, i: usize) -> (r: i64)
    requires
        width <= MAX_SIDE,
        height <= MAX_SIDE,
        i < n <= 8,
    ensures
        r == square_size_spec(width as int, height as int, n as int, i as int),
        0 <= r <= MAX_SIDE * SUBPIXEL,
{
    let side: i64 = if width < height {
        width as i64
    } else {
        height as i64
    };
    let max_size: i64 = side * SUBPIXEL * 70 / 100;
    assert(0 <= max_size * (i + 1) <= max_size * n) by (nonlinear_arith)
        requires
            0 <= max_size,
            i < n,
    ;
    assert(max_size * n <= MAX_SIDE * SUBPIXEL * 8) by (nonlinear_arith)
        requires
            0 <= max_size <= MAX_SIDE * SUBPIXEL,
            n <= 8,
    ;
    let r = max_size * ((i + 1) as i64) / (n as i64);
    assert(r <= max_size) by (nonlinear_arith)
        requires
            r == max_size * (i + 1) / (n as int),
            0 <= max_size * (i + 1) <= max_size * n,
            n >= 1,
    ;
    r
}

/// The color of `(x, y)` after filling the first `k` outlines of `shapes` in
/// order over `buf`, outline `k` in `colors[k]`: the last one that covers the
/// pixel wins.
pub open spec fn filled(
    shapes: Seq<Seq<Point>>,
    colors: Seq<Color>,
    k: int,
    buf: Seq<u8>,
    w: int,
    x: int,
    y: int,
) -> Color
    decreases k,
{
    if k <= 0 {
        pixel_at(buf, w, x, y)
    } else if in_polygon(shapes[k - 1], x, y) {
        colors[k - 1]
    } else {
        filled(shapes, colors, k - 1, buf, w, x, y)
    }
}

/// Colors of `n` nested squares in drawing order: square `n - 1` (the largest)
/// first, each with its foreground color.
pub open spec fn nested_colors(n: int, palette: Seq<Color>) -> Seq<Color> {
    Seq::new(n as nat, |k: int| cycle_color(palette, n - 1 - k))
}

/// Fills the nested squares, given as outlines in drawing order (largest
/// first); outline `k` of `n` is square `n - 1 - k` and takes its foreground
/// color, so that each smaller square lies on top.
pub fn draw_nested_squares(
    buffer: &mut [u8],
    width: u32,
    height: u32,
    outlines: &Vec<Vec<Point>>,
    palette: &[Color],
)
    requires
        is_frame(old(buffer)@, width as int, height as int),
        width as int * height as int * 4 <= usize::MAX,
        palette@.len() >= 2,
    ensures
        final(buffer)@.len() == old(buffer)@.len(),
        forall|x: int, y: int|
            in_frame(width as int, height as int, x, y) ==> #[trigger] pixel_at(
                final(buffer)@,
                width as int,
                x,
                y,
            ) == filled(
                outlines@.map_values(|o: Vec<Point>| o@),
                nested_colors(outlines@.len() as int, palette@),
                outlines@.len() as int,
                old(buffer)@,
                width as int,
                x,
                y,
            ),
{
    let ghost w = width as int;
    let ghost h = height as int;
    let ghost shapes = outlines@.map_values(|o: Vec<Point>| o@);
    let n = outlines.len();
    let ghost colors = nested_colors(n as int, palette@);
    let mut k: usize = 0;
    while k < n
        invariant
            is_frame(buffer@, w, h),
            w == width,
            h == height,
            width as int * height as int * 4 <= usize::MAX,
            n == outlines@.len(),
            palette@.len() >= 2,
            k <= n,
            shapes == outlines@.map_values(|o: Vec<Point>| o@),
            colors == nested_colors(n as int, palette@),
            forall|x: int, y: int|
                in_frame(w, h, x, y) ==> #[trigger] pixel_at(buffer@, w, x, y) == filled(
                    shapes,
                    colors,
                    k as int,
                    old(buffer)@,
                    w,
                    x,
                    y,
                ),
        decreases n - k,
    {
        let i = n - 1 - k;
        let color = palette[1 + i % (palette.len() - 1)];
        draw_filled_polygon(buffer, width, height, outlines[k].as_slice(), color);
        k = k + 1;
    }
}

/// Radius of the ring on which the petals sit: 35% of the shorter side.
pub open spec fn ring_radius_spec(w: int, h: int) -> int {
    min_side(w, h) * SUBPIXEL * 35 / 100
}

/// Radius of the petal ring, in fixed-point units.
pub fn ring_radius(width: u32, height: u32) -> (r: i32)
    requires
        width <= MAX_SIDE,
        height <= MAX_SIDE,
    ensures
        r == ring_radius_spec(width as int, height as int),
{
    let side: i64 = if width < height {
        width as i64
    } else {
        height as i64
    };
    (side * SUBPIXEL * 35 / 100) as i32
}

/// The petals at `centers`, in order, each 40% of the ring radius and in its
/// foreground color, then the small central disk (30% of the ring radius, in
/// the first foreground color) drawn last so that it lies on top.
pub open spec fn radial_layout(w: int, h: int, centers: Seq<Point>, palette: Seq<Color>) -> Seq<
    Circle,
> {
    Seq::new(
        centers.len(),
        |i: int|
            Circle {
                center: centers[i],
                radius: (ring_radius_spec(w, h) * 40 / 100) as i32,
                color: cycle_color(palette, i),
            },
    ).push(
        Circle {
            center: frame_center(w, h),
            radius: (ring_radius_spec(w, h) * 30 / 100) as i32,
            color: palette[1],
        },
    )
}

/// The radial layout for the given petal centers.
pub fn radial_circles(width: u32, height: u32, centers: &Vec<Point>, palette: &[Color]) -> (r: Vec<
    Circle,
>)
    requires
        width <= MAX_SIDE,
        height <= MAX_SIDE,
        palette@.len() >= 2,
    ensures
        r@ == radial_layout(width as int, height as int, centers@, palette@),
{
    let ring: i64 = ring_radius(width, height) as i64;
    let petal: i32 = (ring * 40 / 100) as i32;
    let mut out: Vec<Circle> = Vec::new();
    let mut i: usize = 0;
    while i < centers.len()
        invariant
            i <= centers@.len(),
            palette@.len() >= 2,
            petal == ring_radius_spec(width as int, height as int) * 40 / 100,
            ring == ring_radius_spec(width as int, height as int),
            0 <= ring <= MAX_SIDE * SUBPIXEL,
            out@ =~= radial_layout(width as int, height as int, centers@, palette@).subrange(
                0,
                i as int,
            ),
        decreases centers@.len() - i,
    {
        let color = palette[1 + i % (palette.len() - 1)];
        out.push(Circle { center: centers[i], radius: petal, color });
        i = i + 1;
    }
    out.push(
        Circle { center: center_of(width, height), radius: (ring * 30 / 100) as i32, color: palette[1] },
    );
    assert(out@ =~= radial_layout(width as int, height as int, centers@, palette@));
    out
}

/// Draws the petals at `centers` and then the central disk over them.
pub fn draw_radial_pattern(
    buffer: &mut [u8],
    width: u32,
    height: u32,
    centers: &Vec<Point>,
    palette: &[Color],
)
    requires
        is_frame(old(buffer)@, width as int, height as int),
        width as int * height as int * 4 <= usize::MAX,
        width <= MAX_SIDE,
        height <= MAX_SIDE,
        palette@.len() >= 2,
    ensures
        final(buffer)@.len() == old(buffer)@.len(),
        forall|x: int, y: int|
            in_frame(width as int, height as int, x, y) ==> #[trigger] pixel_at(
                final(buffer)@,
                width as int,
                x,
                y,
            ) == painted(
                radial_layout(width as int, height as int, centers@, palette@),
                centers@.len() as int + 1,
                old(buffer)@,
                width as int,
                x,
                y,
            ),
{
    let circles = radial_circles(width, height, centers, palette);
    draw_circles(buffer, width, height, &circles);
}

} // verus!
