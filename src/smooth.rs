use vstd::prelude::*;
use crate::pixels::{
    get_pixel, in_frame, is_frame, lemma_same_pixels_equal, pixel_at, same_pixels, set_pixel, Color,
};

verus! {

/// A pixel whose largest neighbor difference exceeds this is an edge.
pub const EDGE_THRESHOLD: u32 = 15;

/// Sum of the 3x3 kernel weights; the blurred value is always divided by it.
pub const KERNEL_SUM: u32 = 16;

/// Horizontal offset of the `k`-th cell of the 3x3 neighborhood (row-major).
pub open spec fn cell_dx(k: int) -> int {
    k % 3 - 1
}

/// Vertical offset of the `k`-th cell of the 3x3 neighborhood (row-major).
pub open spec fn cell_dy(k: int) -> int {
    k / 3 - 1
}

/// Gaussian weight of the `k`-th cell: `[[1, 2, 1], [2, 4, 2], [1, 2, 1]]`.
pub open spec fn cell_weight(k: int) -> int {
    if k == 4 {
        4
    } else if k % 2 == 1 {
        2
    } else {
        1
    }
}

pub open spec fn abs_int(v: int) -> int {
    if v < 0 {
        -v
    } else {
        v
    }
}

pub open spec fn max_int(a: int, b: int) -> int {
    if a < b {
        b
    } else {
        a
    }
}

/// Mean absolute channel difference of two colors, truncated.
pub open spec fn color_diff(a: Color, b: Color) -> int {
    (abs_int(a.r - b.r) + abs_int(a.g - b.g) + abs_int(a.b - b.b) + abs_int(a.a - b.a)) / 4
}

/// Channel `ch` of a color: 0 red, 1 green, 2 blue, otherwise alpha.
pub open spec fn channel(c: Color, ch: int) -> int {
    if ch == 0 {
        c.r as int
    } else if ch == 1 {
        c.g as int
    } else if ch == 2 {
        c.b as int
    } else {
        c.a as int
    }
}

/// Largest difference between pixel `(x, y)` and its existing neighbors
/// among the first `k` cells of its neighborhood (0 when there are none).
pub open spec fn max_diff_upto(buf: Seq<u8>, w: int, h: int, x: int, y: int, k: int) -> int
    decreases k,
{
    if k <= 0 {
        0
    } else {
        let prev = max_diff_upto(buf, w, h, x, y, k - 1);
        let nx = x + cell_dx(k - 1);
        let ny = y + cell_dy(k - 1);
        if k - 1 != 4 && in_frame(w, h, nx, ny) {
            max_int(prev, color_diff(pixel_at(buf, w, nx, ny), pixel_at(buf, w, x, y)))
        } else {
            prev
        }
    }
}

/// Largest difference between pixel `(x, y)` and any of its existing neighbors.
pub open spec fn max_diff(buf: Seq<u8>, w: int, h: int, x: int, y: int) -> int {
    max_diff_upto(buf, w, h, x, y, 9)
}

pub open spec fn is_edge(buf: Seq<u8>, w: int, h: int, x: int, y: int) -> bool {
    max_diff(buf, w, h, x, y) > EDGE_THRESHOLD
}

/// Kernel-weighted sum of channel `ch` over the first `k` cells of the
/// neighborhood of `(x, y)` that lie inside the frame.
pub open spec fn weighted_sum_upto(
    buf: Seq<u8>,
    w: int,
    h: int,
    x: int,
    y: int,
    ch: int,
    k: int,
) -> int
    decreases k,
{
    if k <= 0 {
        0
    } else {
        let prev = weighted_sum_upto(buf, w, h, x, y, ch, k - 1);
        let nx = x + cell_dx(k - 1);
        let ny = y + cell_dy(k - 1);
        if in_frame(w, h, nx, ny) {
            prev + cell_weight(k - 1) * channel(pixel_at(buf, w, nx, ny), ch)
        } else {
            prev
        }
    }
}

pub open spec fn weighted_sum(buf: Seq<u8>, w: int, h: int, x: int, y: int, ch: int) -> int {
    weighted_sum_upto(buf, w, h, x, y, ch, 9)
}

/// The Gaussian average of `(x, y)`: missing neighbors contribute nothing and
/// the divisor stays the full kernel sum.
pub open spec fn blurred(buf: Seq<u8>, w: int, h: int, x: int, y: int) -> Color {
    Color {
        r: (weighted_sum(buf, w, h, x, y, 0) / KERNEL_SUM as int) as u8,
        g: (weighted_sum(buf, w, h, x, y, 1) / KERNEL_SUM as int) as u8,
        b: (weighted_sum(buf, w, h, x, y, 2) / KERNEL_SUM as int) as u8,
        a: (weighted_sum(buf, w, h, x, y, 3) / KERNEL_SUM as int) as u8,
    }
}

/// What the smoothing pass leaves at `(x, y)` when it reads the buffer `buf`.
pub open spec fn smoothed_pixel(buf: Seq<u8>, w: int, h: int, x: int, y: int) -> Color {
    if is_edge(buf, w, h, x, y) {
        blurred(buf, w, h, x, y)
    } else {
        pixel_at(buf, w, x, y)
    }
}

/// Total kernel weight of the first `k` cells.
pub open spec fn weight_total_upto(k: int) -> int
    decreases k,
{
    if k <= 0 {
        0
    } else {
        weight_total_upto(k - 1) + cell_weight(k - 1)
    }
}

proof fn lemma_weight_total_monotone(k: int)
    requires
        0 <= k <= 9,
    ensures
        weight_total_upto(k) <= weight_total_upto(9),
    decreases 9 - k,
{
    if k < 9 {
        lemma_weight_total_monotone(k + 1);
    }
}

proof fn lemma_weighted_sum_bound(buf: Seq<u8>, w: int, h: int, x: int, y: int, ch: int, k: int)
    ensures
        0 <= weighted_sum_upto(buf, w, h, x, y, ch, k) <= 255 * weight_total_upto(k),
        weight_total_upto(9) == KERNEL_SUM,
    decreases k,
{
    reveal_with_fuel(weight_total_upto, 10);
    if k > 0 {
        lemma_weighted_sum_bound(buf, w, h, x, y, ch, k - 1);
        let nx = x + cell_dx(k - 1);
        let ny = y + cell_dy(k - 1);
        let v = channel(pixel_at(buf, w, nx, ny), ch);
        let wt = cell_weight(k - 1);
        assert(0 <= wt * v <= wt * 255) by (nonlinear_arith)
            requires
                0 <= v <= 255,
                1 <= wt <= 4,
        ;
    }
}

proof fn lemma_max_diff_nonneg(buf: Seq<u8>, w: int, h: int, x: int, y: int, k: int)
    ensures
        0 <= max_diff_upto(buf, w, h, x, y, k),
    decreases k,
{
    if k > 0 {
        lemma_max_diff_nonneg(buf, w, h, x, y, k - 1);
    }
}

fn abs_diff(a: u8, b: u8) -> (r: u32)
    ensures
        r == abs_int(a - b),
{
    if a < b {
        (b - a) as u32
    } else {
        (a - b) as u32
    }
}

fn color_difference(a: Color, b: Color) -> (r: u32)
    ensures
        r == color_diff(a, b),
{
    (abs_diff(a.r, b.r) + abs_diff(a.g, b.g) + abs_diff(a.b, b.b) + abs_diff(a.a, b.a)) / 4
}

fn channel_of(c: Color, ch: u32) -> (r: u32)
    ensures
        r == channel(c, ch as int),
{
    if ch == 0 {
        c.r as u32
    } else if ch == 1 {
        c.g as u32
    } else if ch == 2 {
        c.b as u32
    } else {
        c.a as u32
    }
}

/// The in-frame coordinates of cell `k` of the neighborhood of `(x, y)`, if any.
fn cell(w: u32, h: u32, x: u32, y: u32, k: u32) -> (r: Option<(u32, u32)>)
    requires
        k < 9,
    ensures
        match r {
            Some((nx, ny)) => in_frame(w as int, h as int, x + cell_dx(k as int), y + cell_dy(
                k as int,
            )) && nx == x + cell_dx(k as int) && ny == y + cell_dy(k as int),
            None => !in_frame(w as int, h as int, x + cell_dx(k as int), y + cell_dy(k as int)),
        },
{
    let nx: i64 = x as i64 + (k % 3) as i64 - 1;
    let ny: i64 = y as i64 + (k / 3) as i64 - 1;
    if 0 <= nx && nx < w as i64 && 0 <= ny && ny < h as i64 {
        Some((nx as u32, ny as u32))
    } else {
        None
    }
}

fn max_difference(snap: &Vec<u8>, w: u32, h: u32, x: u32, y: u32) -> (r: u32)
    requires
        is_frame(snap@, w as int, h as int),
        w as int * h as int * 4 <= usize::MAX,
        x < w,
        y < h,
    ensures
        r == max_diff(snap@, w as int, h as int, x as int, y as int),
{
    let center = get_pixel(snap.as_slice(), w, h, x, y);
    let mut best: u32 = 0;
    let mut k: u32 = 0;
    while k < 9
        invariant
            is_frame(snap@, w as int, h as int),
            w as int * h as int * 4 <= usize::MAX,
            x < w,
            y < h,
            k <= 9,
            center == pixel_at(snap@, w as int, x as int, y as int),
            best == max_diff_upto(snap@, w as int, h as int, x as int, y as int, k as int),
            best <= 255,
        decreases 9 - k,
    {
        if k != 4 {
            match cell(w, h, x, y, k) {
                Some((nx, ny)) => {
                    let d = color_difference(get_pixel(snap.as_slice(), w, h, nx, ny), center);
                    if best < d {
                        best = d;
                    }
                },
                None => {},
            }
        }
        k = k + 1;
    }
    best
}

fn blur_channel(snap: &Vec<u8>, w: u32, h: u32, x: u32, y: u32, ch: u32) -> (r: u8)
    requires
        is_frame(snap@, w as int, h as int),
        w as int * h as int * 4 <= usize::MAX,
        x < w,
        y < h,
    ensures
        r == weighted_sum(snap@, w as int, h as int, x as int, y as int, ch as int)
            / KERNEL_SUM as int,
{
    let mut sum: u32 = 0;
    let mut k: u32 = 0;
    while k < 9
        invariant
            is_frame(snap@, w as int, h as int),
            w as int * h as int * 4 <= usize::MAX,
            x < w,
            y < h,
            k <= 9,
            sum == weighted_sum_upto(snap@, w as int, h as int, x as int, y as int, ch as int, k as int),
            0 <= k <= 9,
        decreases 9 - k,
    {
        proof {
            lemma_weighted_sum_bound(snap@, w as int, h as int, x as int, y as int, ch as int, k as int);
            lemma_weight_total_monotone(k as int);
        }
        match cell(w, h, x, y, k) {
            Some((nx, ny)) => {
                let weight: u32 = if k == 4 {
                    4
                } else if k % 2 == 1 {
                    2
                } else {
                    1
                };
                sum = sum + weight * channel_of(get_pixel(snap.as_slice(), w, h, nx, ny), ch);
            },
            None => {},
        }
        k = k + 1;
    }
    proof {
        lemma_weighted_sum_bound(snap@, w as int, h as int, x as int, y as int, ch as int, 9);
    }
    (sum / KERNEL_SUM) as u8
}

/// Copies the buffer so that every neighborhood is read as it was before the pass.
fn snapshot(buffer: &[u8]) -> (r: Vec<u8>)
    ensures
        r@ == buffer@,
{
    let mut out: Vec<u8> = Vec::with_capacity(buffer.len());
    let mut i: usize = 0;
    while i < buffer.len()
        invariant
            i <= buffer@.len(),
            out@ == buffer@.subrange(0, i as int),
        decreases buffer@.len() - i,
    {
        out.push(buffer[i]);
        i = i + 1;
    }
    assert(out@ =~= buffer@);
    out
}

/// Edge-aware smoothing: every pixel whose largest neighbor difference exceeds
/// the threshold is replaced by the Gaussian average of its neighborhood, as
/// read before the pass; every other pixel is left as it was.
pub fn antialias(buffer: &mut [u8], width: u32, height: u32)
    requires
        is_frame(old(buffer)@, width as int, height as int),
        width as int * height as int * 4 <= usize::MAX,
    ensures
        final(buffer)@.len() == old(buffer)@.len(),
        forall|x: int, y: int|
            in_frame(width as int, height as int, x, y) ==> #[trigger] pixel_at(
                final(buffer)@,
                width as int,
                x,
                y,
            ) == smoothed_pixel(old(buffer)@, width as int, height as int, x, y),
{
    let snap = snapshot(buffer);
    let ghost w = width as int;
    let ghost h = height as int;
    let mut y: u32 = 0;
    while y < height
        invariant
            snap@ == old(buffer)@,
            is_frame(snap@, w, h),
            is_frame(buffer@, w, h),
            w == width,
            h == height,
            width as int * height as int * 4 <= usize::MAX,
            y <= height,
            forall|px: int, py: int|
                in_frame(w, h, px, py) ==> #[trigger] pixel_at(buffer@, w, px, py) == if py < y {
                    smoothed_pixel(snap@, w, h, px, py)
                } else {
                    pixel_at(snap@, w, px, py)
                },
        decreases height - y,
    {
        let mut x: u32 = 0;
        while x < width
            invariant
                snap@ == old(buffer)@,
                is_frame(snap@, w, h),
                is_frame(buffer@, w, h),
                w == width,
                h == height,
                width as int * height as int * 4 <= usize::MAX,
                y < height,
                x <= width,
                forall|px: int, py: int|
                    in_frame(w, h, px, py) ==> #[trigger] pixel_at(buffer@, w, px, py) == if py < y
                        || (py == y && px < x) {
                        smoothed_pixel(snap@, w, h, px, py)
                    } else {
                        pixel_at(snap@, w, px, py)
                    },
            decreases width - x,
        {
            let d = max_difference(&snap, width, height, x, y);
            if d > EDGE_THRESHOLD {
                let c = Color {
                    r: blur_channel(&snap, width, height, x, y, 0),
                    g: blur_channel(&snap, width, height, x, y, 1),
                    b: blur_channel(&snap, width, height, x, y, 2),
                    a: blur_channel(&snap, width, height, x, y, 3),
                };
                set_pixel(buffer, width, height, x, y, c);
            }
            x = x + 1;
        }
        y = y + 1;
    }
}

/// What `antialias` does to a frame.
pub open spec fn smoothing_done(before: Seq<u8>, after: Seq<u8>, w: int, h: int) -> bool {
    &&& after.len() == before.len()
    &&& forall|x: int, y: int|
        in_frame(w, h, x, y) ==> #[trigger] pixel_at(after, w, x, y) == smoothed_pixel(
            before,
            w,
            h,
            x,
            y,
        )
}

proof fn lemma_uniform_no_diff(buf: Seq<u8>, w: int, h: int, c: Color, x: int, y: int, k: int)
    requires
        in_frame(w, h, x, y),
        forall|px: int, py: int| in_frame(w, h, px, py) ==> #[trigger] pixel_at(buf, w, px, py) == c,
    ensures
        max_diff_upto(buf, w, h, x, y, k) == 0,
    decreases k,
{
    if k > 0 {
        lemma_uniform_no_diff(buf, w, h, c, x, y, k - 1);
    }
}

/// Flat regions: smoothing a frame of one uniform color changes no byte.
pub proof fn lemma_smoothing_uniform(before: Seq<u8>, after: Seq<u8>, w: int, h: int, c: Color)
    requires
        0 <= w,
        0 <= h,
        is_frame(before, w, h),
        forall|px: int, py: int| in_frame(w, h, px, py) ==> #[trigger] pixel_at(before, w, px, py) == c,
        smoothing_done(before, after, w, h),
    ensures
        after == before,
{
    assert forall|x: int, y: int| in_frame(w, h, x, y) implies #[trigger] pixel_at(after, w, x, y)
        == pixel_at(before, w, x, y) by {
        lemma_uniform_no_diff(before, w, h, c, x, y, 9);
    }
    assert(same_pixels(after, before, w, h));
    lemma_same_pixels_equal(after, before, w, h);
}

/// Channel value `v` lies strictly between those of `a` and `b`, or equals
/// them where they agree.
pub open spec fn between_channel(v: int, a: int, b: int) -> bool {
    if a < b {
        a < v < b
    } else if b < a {
        b < v < a
    } else {
        v == a
    }
}

/// Every channel of `c` lies between the matching channels of `a` and `b`.
pub open spec fn between(c: Color, a: Color, b: Color) -> bool {
    &&& between_channel(c.r as int, a.r as int, b.r as int)
    &&& between_channel(c.g as int, a.g as int, b.g as int)
    &&& between_channel(c.b as int, a.b as int, b.b as int)
    &&& between_channel(c.a as int, a.a as int, b.a as int)
}

/// Columns left of `b` hold `left`, the others `right`.
pub open spec fn is_step(buf: Seq<u8>, w: int, h: int, b: int, left: Color, right: Color) -> bool {
    forall|px: int, py: int|
        in_frame(w, h, px, py) ==> #[trigger] pixel_at(buf, w, px, py) == if px < b {
            left
        } else {
            right
        }
}

/// Channels of two colors are equal or at least 4 apart.
pub open spec fn channels_apart(a: Color, b: Color) -> bool {
    &&& (a.r == b.r || abs_int(a.r - b.r) >= 4)
    &&& (a.g == b.g || abs_int(a.g - b.g) >= 4)
    &&& (a.b == b.b || abs_int(a.b - b.b) >= 4)
    &&& (a.a == b.a || abs_int(a.a - b.a) >= 4)
}

proof fn lemma_step_far(buf: Seq<u8>, w: int, h: int, b: int, left: Color, right: Color, x: int, y: int)
    requires
        is_step(buf, w, h, b, left, right),
        in_frame(w, h, x, y),
        x < b - 1 || x > b,
    ensures
        smoothed_pixel(buf, w, h, x, y) == pixel_at(buf, w, x, y),
{
    reveal_with_fuel(max_diff_upto, 10);
}

proof fn lemma_step_near(buf: Seq<u8>, w: int, h: int, b: int, left: Color, right: Color, x: int, y: int)
    requires
        is_step(buf, w, h, b, left, right),
        2 <= b <= w - 2,
        1 <= y < h - 1,
        x == b - 1 || x == b,
        color_diff(left, right) > EDGE_THRESHOLD,
        channels_apart(left, right),
    ensures
        between(smoothed_pixel(buf, w, h, x, y), left, right),
{
    reveal_with_fuel(max_diff_upto, 10);
    reveal_with_fuel(weighted_sum_upto, 10);
    assert(color_diff(right, left) == color_diff(left, right));
    assert(is_edge(buf, w, h, x, y));
    assert forall|ch: int| 0 <= ch < 4 implies #[trigger] weighted_sum(buf, w, h, x, y, ch) == if x
        == b - 1 {
        12 * channel(left, ch) + 4 * channel(right, ch)
    } else {
        4 * channel(left, ch) + 12 * channel(right, ch)
    } by {}
    lemma_mix(left.r as int, right.r as int);
    lemma_mix(left.g as int, right.g as int);
    lemma_mix(left.b as int, right.b as int);
    lemma_mix(left.a as int, right.a as int);
}

proof fn lemma_mix(l: int, r: int)
    requires
        0 <= l <= 255,
        0 <= r <= 255,
        l == r || abs_int(l - r) >= 4,
    ensures
        between_channel(((12 * l + 4 * r) / 16) as u8 as int, l, r),
        between_channel(((4 * l + 12 * r) / 16) as u8 as int, l, r),
{
}

/// A hard vertical step between `left` (columns before `b`) and `right`:
/// after smoothing, the two columns at the step hold colors strictly between
/// the two (channel by channel, where the colors differ), away from the top
/// and bottom rows; every column farther from the step is unchanged. The step
/// must sit away from the frame's sides, and differing channels must be at
/// least 4 apart, for a strict result.
pub proof fn lemma_smoothing_step(
    before: Seq<u8>,
    after: Seq<u8>,
    w: int,
    h: int,
    b: int,
    left: Color,
    right: Color,
)
    requires
        is_step(before, w, h, b, left, right),
        smoothing_done(before, after, w, h),
        2 <= b <= w - 2,
        color_diff(left, right) > EDGE_THRESHOLD,
        channels_apart(left, right),
    ensures
        forall|x: int, y: int|
            in_frame(w, h, x, y) && (x < b - 1 || x > b) ==> #[trigger] pixel_at(after, w, x, y)
                == pixel_at(before, w, x, y),
        forall|x: int, y: int|
            1 <= y < h - 1 && (x == b - 1 || x == b) ==> between(
                #[trigger] pixel_at(after, w, x, y),
                left,
                right,
            ),
{
    assert forall|x: int, y: int|
        in_frame(w, h, x, y) && (x < b - 1 || x > b) implies #[trigger] pixel_at(after, w, x, y)
        == pixel_at(before, w, x, y) by {
        lemma_step_far(before, w, h, b, left, right, x, y);
    }
    assert forall|x: int, y: int|
        1 <= y < h - 1 && (x == b - 1 || x == b) implies between(
        #[trigger] pixel_at(after, w, x, y),
        left,
        right,
    ) by {
        lemma_step_near(before, w, h, b, left, right, x, y);
    }
}

} // verus!
