use vstd::prelude::*;
use vstd::arithmetic::div_mod::{lemma_div_is_ordered_by_denominator, lemma_div_pos_is_pos, lemma_hoist_over_denominator};
use vstd::relations::sorted_by;
use vstd::seq_lib::{lemma_sorted_unique, to_multiset_insert};
use crate::pixels::{in_frame, is_frame, lemma_same_pixels_equal, pixel_at, same_pixels, set_pixel, Color};

verus! {

/// Shape coordinates are fixed-point: one pixel spans this many units.
pub const SUBPIXEL: i64 = 256;

/// A point in pixel space, in units of `1 / SUBPIXEL` pixel
/// (origin top-left, x right, y down).
#[derive(Clone, Copy, Debug, PartialEq, Eq, Structural)]
pub struct Point {
    pub x: i32,
    pub y: i32,
}

/// The center of pixel `(x, y)` lies in the closed disk of `center` and
/// `radius`; a radius of zero or less covers nothing.
pub open spec fn in_disk(center: Point, radius: int, x: int, y: int) -> bool {
    let dx = x * SUBPIXEL - center.x;
    let dy = y * SUBPIXEL - center.y;
    radius > 0 && dx * dx + dy * dy <= radius * radius
}

/// Fixed-point coordinate of pixel `v` lies within `radius` of `center`.
pub open spec fn near_axis(center: int, radius: int, v: int) -> bool {
    center - radius <= v * SUBPIXEL <= center + radius
}

proof fn lemma_disk_axis(d: int, e: int, r: int)
    requires
        r > 0,
        d * d + e * e <= r * r,
    ensures
        -r <= d <= r,
{
    assert(e * e >= 0) by (nonlinear_arith);
    if d > r {
        assert(d * d > r * r) by (nonlinear_arith)
            requires
                d > r,
                r > 0,
        ;
    }
    if d < -r {
        assert(d * d > r * r) by (nonlinear_arith)
            requires
                d < -r,
                r > 0,
        ;
    }
}

/// The pixels `v` in `[0, limit)` whose fixed-point coordinate lies within
/// `radius` of `center` on one axis form the range `[lo, hi)`, or part of it.
fn axis_range(center: i32, radius: i32, limit: u32) -> (r: (u32, u32))
    requires
        radius > 0,
    ensures
        r.0 <= r.1 <= limit,
        forall|v: int|
            0 <= v < limit && #[trigger] near_axis(center as int, radius as int, v) ==> r.0 <= v
                < r.1,
{
    let low: i64 = center as i64 - radius as i64;
    let high: i64 = center as i64 + radius as i64;
    if high < 0 {
        return (0, 0);
    }
    let lo64: i64 = if low <= 0 {
        0
    } else {
        low / SUBPIXEL
    };
    let hi64: i64 = high / SUBPIXEL + 1;
    let hi: u32 = if hi64 < limit as i64 {
        hi64 as u32
    } else {
        limit
    };
    let lo: u32 = if lo64 < hi as i64 {
        lo64 as u32
    } else {
        hi
    };
    (lo, hi)
}

/// Fills every pixel whose center lies in the closed disk with `color`,
/// overwriting what was there; no other pixel changes.
pub fn draw_circle(
    buffer: &mut [u8],
    width: u32,
    height: u32,
    center: Point,
    radius: i32,
    color: Color,
)
    requires
        is_frame(old(buffer)@, width as int, height as int),
        width as int * height as int * 4 <= usize::MAX,
    ensures
        final(buffer)@.len() == old(buffer)@.len(),
        forall|x: int, y: int|
            in_frame(width as int, height as int, x, y) ==> #[trigger] pixel_at(
                final(buffer)@,
                width as int,
                x,
                y,
            ) == if in_disk(center, radius as int, x, y) {
                color
            } else {
                pixel_at(old(buffer)@, width as int, x, y)
            },
{
    if radius <= 0 {
        return ;
    }
    let ghost w = width as int;
    let ghost h = height as int;
    let (x_lo, x_hi) = axis_range(center.x, radius, width);
    let (y_lo, y_hi) = axis_range(center.y, radius, height);
    assert forall|px: int, py: int|
        in_frame(w, h, px, py) && in_disk(center, radius as int, px, py) implies x_lo <= px < x_hi
        && y_lo <= py < y_hi by {
        let dx = px * SUBPIXEL - center.x;
        let dy = py * SUBPIXEL - center.y;
        lemma_disk_axis(dx, dy, radius as int);
        lemma_disk_axis(dy, dx, radius as int);
        assert(near_axis(center.x as int, radius as int, px));
        assert(near_axis(center.y as int, radius as int, py));
    }
    let mut y: u32 = y_lo;
    while y < y_hi
        invariant
            is_frame(buffer@, w, h),
            w == width,
            h == height,
            width as int * height as int * 4 <= usize::MAX,
            y_lo <= y <= y_hi <= height,
            radius > 0,
            x_lo <= x_hi <= width,
            forall|px: int, py: int|
                in_frame(w, h, px, py) && in_disk(center, radius as int, px, py) ==> x_lo <= px
                    < x_hi && y_lo <= py < y_hi,
            forall|px: int, py: int|
                in_frame(w, h, px, py) ==> #[trigger] pixel_at(buffer@, w, px, py) == if in_disk(
                    center,
                    radius as int,
                    px,
                    py,
                ) && py < y {
                    color
                } else {
                    pixel_at(old(buffer)@, w, px, py)
                },
        decreases y_hi - y,
    {
        let mut x: u32 = x_lo;
        while x < x_hi
            invariant
                is_frame(buffer@, w, h),
                w == width,
                h == height,
                width as int * height as int * 4 <= usize::MAX,
                y_lo <= y < y_hi <= height,
                radius > 0,
                x_lo <= x <= x_hi <= width,
                forall|px: int, py: int|
                    in_frame(w, h, px, py) && in_disk(center, radius as int, px, py) ==> x_lo
                        <= px < x_hi && y_lo <= py < y_hi,
                forall|px: int, py: int|
                    in_frame(w, h, px, py) ==> #[trigger] pixel_at(buffer@, w, px, py) == if in_disk(
                        center,
                        radius as int,
                        px,
                        py,
                    ) && (py < y || (py == y && px < x)) {
                        color
                    } else {
                        pixel_at(old(buffer)@, w, px, py)
                    },
            decreases x_hi - x,
        {
            let px: i128 = x as i128 * SUBPIXEL as i128;
            let py: i128 = y as i128 * SUBPIXEL as i128;
            let dx: i128 = px - center.x as i128;
            let dy: i128 = py - center.y as i128;
            let r: i128 = radius as i128;
            assert(dx * dx <= 0x4_0000_0000_0000_0000_0000 && dy * dy <= 0x4_0000_0000_0000_0000_0000) by (nonlinear_arith)
                requires
                    -0x200_0000_0000 <= dx <= 0x200_0000_0000,
                    -0x200_0000_0000 <= dy <= 0x200_0000_0000,
            ;
            assert(0 <= dx * dx && 0 <= dy * dy) by (nonlinear_arith);
            assert(r * r <= 0x4_0000_0000_0000_0000_0000) by (nonlinear_arith)
                requires
                    0 < r <= 0x8000_0000,
            ;
            let dist: i128 = dx * dx + dy * dy;
            if dist <= r * r {
                set_pixel(buffer, width, height, x, y, color);
            }
            x = x + 1;
        }
        y = y + 1;
    }
}


/// The vertex that follows vertex `k` on the closed outline.
pub open spec fn next_vertex(pts: Seq<Point>, k: int) -> Point {
    if k + 1 < pts.len() {
        pts[k + 1]
    } else {
        pts[0]
    }
}

/// The edge from `p` to `q` meets scanline `sy` under the half-open rule.
pub open spec fn edge_crosses(p: Point, q: Point, sy: int) -> bool {
    (p.y <= sy < q.y) || (q.y <= sy < p.y)
}

/// Where the edge from `p` to `q` meets scanline `sy`, rounded down.
pub open spec fn edge_x(p: Point, q: Point, sy: int) -> int {
    if p.y < q.y {
        p.x + (sy - p.y) * (q.x - p.x) / (q.y - p.y)
    } else {
        q.x + (sy - q.y) * (p.x - q.x) / (p.y - q.y)
    }
}

/// Crossings of scanline `sy` with the first `k` edges, in edge order.
pub open spec fn crossings_upto(pts: Seq<Point>, sy: int, k: int) -> Seq<int>
    decreases k,
{
    if k <= 0 {
        seq![]
    } else {
        let prev = crossings_upto(pts, sy, k - 1);
        let p = pts[k - 1];
        let q = next_vertex(pts, k - 1);
        if edge_crosses(p, q, sy) {
            prev.push(edge_x(p, q, sy))
        } else {
            prev
        }
    }
}

/// Crossings of scanline `sy` with every edge of the closed outline.
pub open spec fn crossings(pts: Seq<Point>, sy: int) -> Seq<int> {
    crossings_upto(pts, sy, pts.len() as int)
}

/// Pixel column `x` lies in the `j`-th span (between crossings `2j` and `2j + 1`).
pub open spec fn span_covers(s: Seq<int>, j: int, x: int) -> bool {
    0 <= j && 2 * j + 1 < s.len() && s[2 * j] / (SUBPIXEL as int) <= x <= s[2 * j + 1] / (SUBPIXEL as int)
}

/// Pixel column `x` lies in one of the first `m` spans.
pub open spec fn covered_upto(s: Seq<int>, m: int, x: int) -> bool {
    exists|j: int| 0 <= j < m && #[trigger] span_covers(s, j, x)
}

/// Pixel `(x, y)` is inside the polygon by the even-odd rule: its column lies
/// between an even-indexed crossing of its scanline and the next one, once the
/// crossings are sorted. Fewer than three vertices enclose nothing.
pub open spec fn in_polygon(pts: Seq<Point>, x: int, y: int) -> bool {
    let s = crossings(pts, y * SUBPIXEL).sort();
    pts.len() >= 3 && covered_upto(s, s.len() as int, x)
}

/// The values of `v` as mathematical integers.
pub open spec fn as_ints(v: Seq<i128>) -> Seq<int> {
    Seq::new(v.len(), |i: int| v[i] as int)
}

fn edge_x_at(p: Point, q: Point, sy: i64) -> (r: i128)
    requires
        edge_crosses(p, q, sy as int),
    ensures
        r == edge_x(p, q, sy as int),
{
    let (a, b) = if p.y < q.y {
        (p, q)
    } else {
        (q, p)
    };
    let t: i128 = sy as i128 - a.y as i128;
    let d: i128 = b.y as i128 - a.y as i128;
    let dx: i128 = b.x as i128 - a.x as i128;
    assert(0 <= t < d);
    if dx >= 0 {
        assert(0 <= t * dx <= d * dx) by (nonlinear_arith)
            requires
                0 <= t < d,
                0 <= dx,
        ;
        assert(d * dx <= 0x1_0000_0000 * 0x1_0000_0000) by (nonlinear_arith)
            requires
                0 < d <= 0x1_0000_0000,
                0 <= dx <= 0x1_0000_0000,
        ;
        let m: i128 = t * dx;
        proof {
            lemma_div_pos_is_pos(m as int, d as int);
            lemma_div_is_ordered_by_denominator(m as int, 1, d as int);
        }
        a.x as i128 + m / d
    } else {
        let u: i128 = d - t;
        let ndx: i128 = -dx;
        assert(0 <= u * ndx <= d * ndx) by (nonlinear_arith)
            requires
                0 < u <= d,
                0 < ndx,
        ;
        assert(d * ndx <= 0x1_0000_0000 * 0x1_0000_0000) by (nonlinear_arith)
            requires
                0 < d <= 0x1_0000_0000,
                0 < ndx <= 0x1_0000_0000,
        ;
        let m: i128 = u * ndx;
        proof {
            lemma_div_pos_is_pos(m as int, d as int);
            lemma_div_is_ordered_by_denominator(m as int, 1, d as int);
            lemma_hoist_over_denominator(m as int, dx as int, d as nat);
            assert(m + dx * d == t * dx) by (nonlinear_arith)
                requires
                    m == (d - t) * (-dx),
            ;
        }
        b.x as i128 + m / d
    }
}

/// Crossings of scanline `sy` with the edges of the closed outline, in edge order.
fn scanline_crossings(points: &[Point], sy: i64) -> (r: Vec<i128>)
    requires
        points@.len() >= 1,
    ensures
        as_ints(r@) == crossings(points@, sy as int),
{
    let n = points.len();
    let mut out: Vec<i128> = Vec::new();
    let mut i: usize = 0;
    while i < n
        invariant
            n == points@.len(),
            n >= 1,
            i <= n,
            as_ints(out@) == crossings_upto(points@, sy as int, i as int),
        decreases n - i,
    {
        let p = points[i];
        let q = if i + 1 < n {
            points[i + 1]
        } else {
            points[0]
        };
        if (p.y as i64 <= sy && sy < q.y as i64) || (q.y as i64 <= sy && sy < p.y as i64) {
            let v = edge_x_at(p, q, sy);
            let ghost before = out@;
            out.push(v);
            assert(as_ints(out@) =~= as_ints(before).push(v as int));
        }
        i = i + 1;
    }
    out
}

/// Sorts the crossings in ascending order by insertion.
fn sort_crossings(xs: &Vec<i128>) -> (r: Vec<i128>)
    ensures
        as_ints(r@) == as_ints(xs@).sort(),
{
    let mut out: Vec<i128> = Vec::new();
    let mut i: usize = 0;
    assert(as_ints(out@) =~= as_ints(xs@).subrange(0, 0));
    while i < xs.len()
        invariant
            i <= xs@.len(),
            forall|a: int, b: int| 0 <= a < b < out@.len() ==> out@[a] <= out@[b],
            as_ints(out@).to_multiset() == as_ints(xs@).subrange(0, i as int).to_multiset(),
        decreases xs@.len() - i,
    {
        let v = xs[i];
        let mut j: usize = 0;
        while j < out.len() && out[j] <= v
            invariant
                j <= out@.len(),
                forall|a: int| 0 <= a < j ==> out@[a] <= v,
            decreases out@.len() - j,
        {
            j = j + 1;
        }
        let ghost before = out@;
        out.insert(j, v);
        proof {
            assert(as_ints(out@) =~= as_ints(before).insert(j as int, v as int));
            to_multiset_insert(as_ints(before), j as int, v as int);
            assert(as_ints(xs@).subrange(0, i + 1) =~= as_ints(xs@).subrange(0, i as int).push(
                v as int,
            ));
            assert(as_ints(xs@).subrange(0, i as int).push(v as int).to_multiset()
                =~= as_ints(xs@).subrange(0, i as int).to_multiset().insert(v as int)) by {
                vstd::seq_lib::to_multiset_build(as_ints(xs@).subrange(0, i as int), v as int);
            }
        }
        i = i + 1;
    }
    proof {
        let leq = |x: int, y: int| x <= y;
        let s = as_ints(xs@);
        assert(s.subrange(0, s.len() as int) =~= s);
        s.lemma_sort_ensures();
        assert(sorted_by(as_ints(out@), leq));
        assert(sorted_by(s.sort(), leq));
        lemma_sorted_unique(as_ints(out@), s.sort(), leq);
    }
    out
}


/// Paints row `y` between consecutive pairs of the sorted crossings `xs`,
/// clamped to the frame; an unmatched last crossing is dropped.
fn fill_row_spans(buffer: &mut [u8], width: u32, height: u32, y: u32, xs: &Vec<i128>, color: Color)
    requires
        is_frame(old(buffer)@, width as int, height as int),
        width as int * height as int * 4 <= usize::MAX,
        y < height,
    ensures
        final(buffer)@.len() == old(buffer)@.len(),
        forall|px: int, py: int|
            in_frame(width as int, height as int, px, py) ==> #[trigger] pixel_at(
                final(buffer)@,
                width as int,
                px,
                py,
            ) == if py == y && covered_upto(as_ints(xs@), as_ints(xs@).len() as int, px) {
                color
            } else {
                pixel_at(old(buffer)@, width as int, px, py)
            },
{
    let ghost w = width as int;
    let ghost h = height as int;
    let ghost s = as_ints(xs@);
    let mut j: usize = 0;
    while j + 1 < xs.len()
        invariant
            is_frame(buffer@, w, h),
            w == width,
            h == height,
            width as int * height as int * 4 <= usize::MAX,
            y < height,
            s == as_ints(xs@),
            j % 2 == 0,
            j <= xs@.len() + 1,
            forall|px: int, py: int|
                in_frame(w, h, px, py) ==> #[trigger] pixel_at(buffer@, w, px, py) == if py == y
                    && covered_upto(s, j as int / 2, px) {
                    color
                } else {
                    pixel_at(old(buffer)@, w, px, py)
                },
        decreases xs@.len() + 1 - j,
    {
        let start = xs[j];
        let end = xs[j + 1];
        let ghost k = j as int / 2;
        let x_lo: u32 = if start <= 0 {
            0
        } else if start / (SUBPIXEL as i128) < width as i128 {
            (start / (SUBPIXEL as i128)) as u32
        } else {
            width
        };
        let x_hi: u32 = if end < 0 {
            0
        } else if end / (SUBPIXEL as i128) < width as i128 {
            (end / (SUBPIXEL as i128) + 1) as u32
        } else {
            width
        };
        assert forall|px: int| 0 <= px < w implies (span_covers(s, k, px) <==> (x_lo <= px
            < x_hi)) by {
            assert(2 * k == j);
        }
        let mut x: u32 = x_lo;
        while x < x_hi
            invariant
                is_frame(buffer@, w, h),
                w == width,
                h == height,
                width as int * height as int * 4 <= usize::MAX,
                y < height,
                x_lo <= x,
                x_hi <= width,
                x_lo <= x_hi ==> x <= x_hi,
                x_lo > x_hi ==> x == x_lo,
                forall|px: int| 0 <= px < w ==> (span_covers(s, k, px) <==> (x_lo <= px < x_hi)),
                forall|px: int, py: int|
                    in_frame(w, h, px, py) ==> #[trigger] pixel_at(buffer@, w, px, py) == if py
                        == y && (covered_upto(s, k, px) || (x_lo <= px < x)) {
                        color
                    } else {
                        pixel_at(old(buffer)@, w, px, py)
                    },
            decreases x_hi - x,
        {
            set_pixel(buffer, width, height, x, y, color);
            x = x + 1;
        }
        assert forall|px: int, py: int| in_frame(w, h, px, py) implies #[trigger] pixel_at(
            buffer@,
            w,
            px,
            py,
        ) == if py == y && covered_upto(s, k + 1, px) {
            color
        } else {
            pixel_at(old(buffer)@, w, px, py)
        } by {
            if covered_upto(s, k + 1, px) && !covered_upto(s, k, px) {
                let jj = choose|jj: int| 0 <= jj < k + 1 && #[trigger] span_covers(s, jj, px);
                assert(jj == k);
            }
            if span_covers(s, k, px) {
                assert(covered_upto(s, k + 1, px));
            }
            if covered_upto(s, k, px) {
                let jj = choose|jj: int| 0 <= jj < k && #[trigger] span_covers(s, jj, px);
                assert(covered_upto(s, k + 1, px));
            }
        }
        j = j + 2;
    }
    assert forall|px: int| #![auto] covered_upto(s, s.len() as int, px) <==> covered_upto(s, j as int / 2, px) by {
        if covered_upto(s, s.len() as int, px) {
            let jj = choose|jj: int| 0 <= jj < s.len() && #[trigger] span_covers(s, jj, px);
            assert(0 <= jj < j as int / 2);
        }
        if covered_upto(s, j as int / 2, px) {
            let jj = choose|jj: int| 0 <= jj < j as int / 2 && #[trigger] span_covers(s, jj, px);
            assert(0 <= jj < s.len());
        }
    }
}

/// Fills the interior of the closed outline `points` with `color` by the
/// even-odd scanline rule; no other pixel changes. Fewer than three points
/// fill nothing.
pub fn draw_filled_polygon(
    buffer: &mut [u8],
    width: u32,
    height: u32,
    points: &[Point],
    color: Color,
)
    requires
        is_frame(old(buffer)@, width as int, height as int),
        width as int * height as int * 4 <= usize::MAX,
    ensures
        final(buffer)@.len() == old(buffer)@.len(),
        forall|x: int, y: int|
            in_frame(width as int, height as int, x, y) ==> #[trigger] pixel_at(
                final(buffer)@,
                width as int,
                x,
                y,
            ) == if in_polygon(points@, x, y) {
                color
            } else {
                pixel_at(old(buffer)@, width as int, x, y)
            },
{
    if points.len() < 3 {
        return ;
    }
    let ghost w = width as int;
    let ghost h = height as int;
    let (y_lo, y_hi) = scan_rows(points, height);
    let mut y: u32 = y_lo;
    while y < y_hi
        invariant
            is_frame(buffer@, w, h),
            w == width,
            h == height,
            width as int * height as int * 4 <= usize::MAX,
            y_lo <= y <= y_hi <= height,
            points@.len() >= 3,
            forall|px: int, py: int|
                in_frame(w, h, px, py) && (py < y_lo || py >= y_hi) ==> !#[trigger] in_polygon(
                    points@,
                    px,
                    py,
                ),
            forall|px: int, py: int|
                in_frame(w, h, px, py) ==> #[trigger] pixel_at(buffer@, w, px, py) == if py < y
                    && in_polygon(points@, px, py) {
                    color
                } else {
                    pixel_at(old(buffer)@, w, px, py)
                },
        decreases y_hi - y,
    {
        let sy: i64 = y as i64 * SUBPIXEL;
        let xs = scanline_crossings(points, sy);
        let sorted = sort_crossings(&xs);
        fill_row_spans(buffer, width, height, y, &sorted, color);
        assert(sy as int == y as int * SUBPIXEL);
        y = y + 1;
    }
}

proof fn lemma_no_crossings(pts: Seq<Point>, sy: int, k: int)
    requires
        0 <= k <= pts.len(),
        pts.len() >= 1,
        (forall|i: int| 0 <= i < pts.len() ==> sy < #[trigger] pts[i].y) || (forall|i: int|
            0 <= i < pts.len() ==> #[trigger] pts[i].y <= sy),
    ensures
        crossings_upto(pts, sy, k).len() == 0,
    decreases k,
{
    if k > 0 {
        lemma_no_crossings(pts, sy, k - 1);
        let p = pts[k - 1];
        let q = next_vertex(pts, k - 1);
        if k < pts.len() {
            assert(q == pts[k]);
        } else {
            assert(q == pts[0]);
        }
    }
}

/// Scanlines `[lo, hi)` of the frame that the outline's vertical extent
/// reaches; no other scanline meets an edge.
fn scan_rows(points: &[Point], height: u32) -> (r: (u32, u32))
    requires
        points@.len() >= 3,
    ensures
        r.0 <= r.1 <= height,
        forall|px: int, py: int|
            0 <= py < height && (py < r.0 || py >= r.1) ==> !#[trigger] in_polygon(points@, px, py),
{
    let mut min_y: i32 = points[0].y;
    let mut max_y: i32 = points[0].y;
    let mut i: usize = 1;
    while i < points.len()
        invariant
            1 <= i <= points@.len(),
            forall|j: int| 0 <= j < i ==> min_y <= #[trigger] points@[j].y <= max_y,
        decreases points@.len() - i,
    {
        if points[i].y < min_y {
            min_y = points[i].y;
        }
        if points[i].y > max_y {
            max_y = points[i].y;
        }
        i = i + 1;
    }
    let hi: u32 = if max_y < 0 {
        0
    } else if (max_y as i64 / SUBPIXEL) < height as i64 {
        (max_y as i64 / SUBPIXEL + 1) as u32
    } else {
        height
    };
    let lo: u32 = if min_y <= 0 {
        0
    } else if (min_y as i64 / SUBPIXEL) < hi as i64 {
        (min_y as i64 / SUBPIXEL) as u32
    } else {
        hi
    };
    assert forall|px: int, py: int|
        0 <= py < height && (py < lo || py >= hi) implies !#[trigger] in_polygon(points@, px, py) by {
        let sy = py * SUBPIXEL;
        if py >= hi {
            assert(forall|j: int| 0 <= j < points@.len() ==> #[trigger] points@[j].y <= sy);
        } else {
            assert(forall|j: int| 0 <= j < points@.len() ==> sy < #[trigger] points@[j].y);
        }
        lemma_no_crossings(points@, sy, points@.len() as int);
        let c = crossings(points@, sy);
        c.lemma_sort_ensures();
        vstd::seq_lib::to_multiset_len(c);
        vstd::seq_lib::to_multiset_len(c.sort());
    }
    (lo, hi)
}

/// What `draw_circle` does to a frame: pixels in the disk take the color, the
/// rest keep theirs.
pub open spec fn circle_drawn(
    before: Seq<u8>,
    after: Seq<u8>,
    w: int,
    h: int,
    center: Point,
    radius: int,
    color: Color,
) -> bool {
    &&& after.len() == before.len()
    &&& forall|x: int, y: int|
        in_frame(w, h, x, y) ==> #[trigger] pixel_at(after, w, x, y) == if in_disk(
            center,
            radius,
            x,
            y,
        ) {
            color
        } else {
            pixel_at(before, w, x, y)
        }
}

/// Circle containment: drawn over a uniform background, every pixel whose
/// center is within the radius takes the fill color, and every pixel more
/// than one pixel beyond the radius keeps the background.
pub proof fn lemma_circle_containment(
    before: Seq<u8>,
    after: Seq<u8>,
    w: int,
    h: int,
    center: Point,
    radius: int,
    color: Color,
    background: Color,
)
    requires
        radius > 0,
        forall|x: int, y: int| in_frame(w, h, x, y) ==> #[trigger] pixel_at(before, w, x, y) == background,
        circle_drawn(before, after, w, h, center, radius, color),
    ensures
        forall|x: int, y: int|
            in_frame(w, h, x, y) && (x * SUBPIXEL - center.x) * (x * SUBPIXEL - center.x) + (y
                * SUBPIXEL - center.y) * (y * SUBPIXEL - center.y) <= radius * radius
                ==> #[trigger] pixel_at(after, w, x, y) == color,
        forall|x: int, y: int|
            in_frame(w, h, x, y) && (x * SUBPIXEL - center.x) * (x * SUBPIXEL - center.x) + (y
                * SUBPIXEL - center.y) * (y * SUBPIXEL - center.y) > (radius + SUBPIXEL) * (radius
                + SUBPIXEL) ==> #[trigger] pixel_at(after, w, x, y) == background,
{
    assert forall|x: int, y: int|
        in_frame(w, h, x, y) && (x * SUBPIXEL - center.x) * (x * SUBPIXEL - center.x) + (y
            * SUBPIXEL - center.y) * (y * SUBPIXEL - center.y) > (radius + SUBPIXEL) * (radius
            + SUBPIXEL) implies #[trigger] pixel_at(after, w, x, y) == background by {
        assert((radius + SUBPIXEL) * (radius + SUBPIXEL) >= radius * radius) by (nonlinear_arith)
            requires
                radius > 0,
        ;
    }
}

/// Draw order: painting a disk of color `x_color` and then a disk of color
/// `y_color` leaves exactly `y_color` wherever the second disk reaches, and
/// `x_color` where only the first does; colors are never blended.
pub proof fn lemma_draw_order_overwrite(
    before: Seq<u8>,
    mid: Seq<u8>,
    after: Seq<u8>,
    w: int,
    h: int,
    first_center: Point,
    first_radius: int,
    x_color: Color,
    second_center: Point,
    second_radius: int,
    y_color: Color,
)
    requires
        circle_drawn(before, mid, w, h, first_center, first_radius, x_color),
        circle_drawn(mid, after, w, h, second_center, second_radius, y_color),
    ensures
        forall|x: int, y: int|
            in_frame(w, h, x, y) && in_disk(second_center, second_radius, x, y) ==> #[trigger] pixel_at(
                after,
                w,
                x,
                y,
            ) == y_color,
        forall|x: int, y: int|
            in_frame(w, h, x, y) && in_disk(first_center, first_radius, x, y) && !in_disk(second_center, second_radius, x, y) ==> #[trigger] pixel_at(after, w, x, y) == x_color,
{
    assert forall|x: int, y: int|
        in_frame(w, h, x, y) && in_disk(first_center, first_radius, x, y) && !in_disk(second_center, second_radius, x, y) implies #[trigger] pixel_at(after, w, x, y) == x_color by {
        assert(pixel_at(mid, w, x, y) == x_color);
    }
}

/// What `draw_filled_polygon` does to a frame.
pub open spec fn polygon_drawn(
    before: Seq<u8>,
    after: Seq<u8>,
    w: int,
    h: int,
    pts: Seq<Point>,
    color: Color,
) -> bool {
    &&& after.len() == before.len()
    &&& forall|x: int, y: int|
        in_frame(w, h, x, y) ==> #[trigger] pixel_at(after, w, x, y) == if in_polygon(
            pts,
            x,
            y,
        ) {
            color
        } else {
            pixel_at(before, w, x, y)
        }
}

/// A polygon of fewer than three points fills nothing: the frame is unchanged.
pub proof fn lemma_degenerate_polygon(
    before: Seq<u8>,
    after: Seq<u8>,
    w: int,
    h: int,
    pts: Seq<Point>,
    color: Color,
)
    requires
        0 <= w,
        0 <= h,
        is_frame(before, w, h),
        pts.len() < 3,
        polygon_drawn(before, after, w, h, pts, color),
    ensures
        after == before,
{
    assert(same_pixels(after, before, w, h));
    lemma_same_pixels_equal(after, before, w, h);
}

} // verus!
