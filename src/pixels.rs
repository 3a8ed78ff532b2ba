use vstd::prelude::*;

verus! {

/// One RGBA pixel value.
#[derive(Clone, Copy, Debug, PartialEq, Eq, Structural)]
pub struct Color {
    pub r: u8,
    pub g: u8,
    pub b: u8,
    pub a: u8,
}

/// Byte offset of pixel `(x, y)` in a row-major RGBA buffer of width `w`.
pub open spec fn offset(w: int, x: int, y: int) -> int {
    (y * w + x) * 4
}

/// The color stored at pixel `(x, y)`.
pub open spec fn pixel_at(buf: Seq<u8>, w: int, x: int, y: int) -> Color {
    let i = offset(w, x, y);
    Color { r: buf[i], g: buf[i + 1], b: buf[i + 2], a: buf[i + 3] }
}

/// A buffer of `w` by `h` RGBA pixels.
pub open spec fn is_frame(buf: Seq<u8>, w: int, h: int) -> bool {
    buf.len() == w * h * 4
}

/// Pixel `(x, y)` lies inside a `w` by `h` frame.
pub open spec fn in_frame(w: int, h: int, x: int, y: int) -> bool {
    0 <= x < w && 0 <= y < h
}

/// Two buffers agree on every pixel of the frame.
pub open spec fn same_pixels(a: Seq<u8>, b: Seq<u8>, w: int, h: int) -> bool {
    forall|x: int, y: int|
        in_frame(w, h, x, y) ==> #[trigger] pixel_at(a, w, x, y) == pixel_at(b, w, x, y)
}

pub proof fn lemma_offset_bounds(w: int, h: int, x: int, y: int)
    requires
        in_frame(w, h, x, y),
    ensures
        0 <= offset(w, x, y),
        offset(w, x, y) + 4 <= w * h * 4,
{
    assert(y * w + x < w * h) by (nonlinear_arith)
        requires
            0 <= x < w,
            0 <= y < h,
    ;
    assert(0 <= y * w) by (nonlinear_arith)
        requires
            0 <= x < w,
            0 <= y < h,
    ;
}

pub proof fn lemma_offset_disjoint(w: int, h: int, x1: int, y1: int, x2: int, y2: int)
    requires
        in_frame(w, h, x1, y1),
        in_frame(w, h, x2, y2),
        x1 != x2 || y1 != y2,
    ensures
        offset(w, x1, y1) + 4 <= offset(w, x2, y2) || offset(w, x2, y2) + 4 <= offset(w, x1, y1),
{
    if y1 == y2 {
    } else if y1 < y2 {
        assert(y1 * w + x1 < y2 * w + x2) by (nonlinear_arith)
            requires
                0 <= x1 < w,
                0 <= x2 < w,
                y1 < y2,
        ;
    } else {
        assert(y2 * w + x2 < y1 * w + x1) by (nonlinear_arith)
            requires
                0 <= x1 < w,
                0 <= x2 < w,
                y2 < y1,
        ;
    }
}

/// The four bytes of pixel `(x, y)` in a buffer of width `w`.
pub fn pixel_index(w: u32, h: u32, x: u32, y: u32) -> (r: usize)
    requires
        x < w,
        y < h,
        w as int * h as int * 4 <= usize::MAX,
    ensures
        r == offset(w as int, x as int, y as int),
        r + 4 <= w as int * h as int * 4,
{
    proof {
        lemma_offset_bounds(w as int, h as int, x as int, y as int);
    }
    assert((y as int) * (w as int) <= (w as int) * (h as int)) by (nonlinear_arith)
        requires
            y < h,
    ;
    ((y as usize) * (w as usize) + (x as usize)) * 4
}

/// Reads pixel `(x, y)`.
pub fn get_pixel(buffer: &[u8], w: u32, h: u32, x: u32, y: u32) -> (c: Color)
    requires
        is_frame(buffer@, w as int, h as int),
        w as int * h as int * 4 <= usize::MAX,
        x < w,
        y < h,
    ensures
        c == pixel_at(buffer@, w as int, x as int, y as int),
{
    let i = pixel_index(w, h, x, y);
    Color { r: buffer[i], g: buffer[i + 1], b: buffer[i + 2], a: buffer[i + 3] }
}

/// Writes `c` into pixel `(x, y)` and leaves every other pixel as it was.
pub fn set_pixel(buffer: &mut [u8], w: u32, h: u32, x: u32, y: u32, c: Color)
    requires
        is_frame(old(buffer)@, w as int, h as int),
        w as int * h as int * 4 <= usize::MAX,
        x < w,
        y < h,
    ensures
        final(buffer)@.len() == old(buffer)@.len(),
        pixel_at(final(buffer)@, w as int, x as int, y as int) == c,
        forall|px: int, py: int|
            in_frame(w as int, h as int, px, py) && (px != x || py != y) ==> #[trigger] pixel_at(
                final(buffer)@,
                w as int,
                px,
                py,
            ) == pixel_at(old(buffer)@, w as int, px, py),
{
    let i = pixel_index(w, h, x, y);
    buffer[i] = c.r;
    buffer[i + 1] = c.g;
    buffer[i + 2] = c.b;
    buffer[i + 3] = c.a;
    assert forall|px: int, py: int|
        in_frame(w as int, h as int, px, py) && (px != x || py != y) implies #[trigger] pixel_at(
            buffer@,
            w as int,
            px,
            py,
        ) == pixel_at(old(buffer)@, w as int, px, py) by {
        lemma_offset_bounds(w as int, h as int, px, py);
        lemma_offset_disjoint(w as int, h as int, px, py, x as int, y as int);
    }
}

/// Byte `k` (0 to 3) of a color: red, green, blue, alpha.
pub open spec fn color_byte(c: Color, k: int) -> u8 {
    if k == 0 {
        c.r
    } else if k == 1 {
        c.g
    } else if k == 2 {
        c.b
    } else {
        c.a
    }
}

/// A `width` by `height` frame with every pixel set to `background`.
pub fn new_frame(width: u32, height: u32, background: Color) -> (r: Vec<u8>)
    requires
        width as int * height as int * 4 <= usize::MAX,
    ensures
        is_frame(r@, width as int, height as int),
        forall|x: int, y: int|
            in_frame(width as int, height as int, x, y) ==> #[trigger] pixel_at(
                r@,
                width as int,
                x,
                y,
            ) == background,
{
    let n: usize = width as usize * height as usize;
    let mut out: Vec<u8> = Vec::with_capacity(n * 4);
    let mut i: usize = 0;
    while i < n
        invariant
            n == width as int * height as int,
            n * 4 <= usize::MAX,
            i <= n,
            out@.len() == i * 4,
            forall|j: int| 0 <= j < out@.len() ==> #[trigger] out@[j] == color_byte(background, j % 4),
        decreases n - i,
    {
        out.push(background.r);
        out.push(background.g);
        out.push(background.b);
        out.push(background.a);
        i = i + 1;
    }
    assert forall|x: int, y: int|
        in_frame(width as int, height as int, x, y) implies #[trigger] pixel_at(
            out@,
            width as int,
            x,
            y,
        ) == background by {
        lemma_offset_bounds(width as int, height as int, x, y);
        let o = offset(width as int, x, y);
        assert(o % 4 == 0);
        assert((o + 1) % 4 == 1);
        assert((o + 2) % 4 == 2);
        assert((o + 3) % 4 == 3);
    }
    out
}

/// Two frames of the same size that agree on every pixel are the same bytes.
pub proof fn lemma_same_pixels_equal(a: Seq<u8>, b: Seq<u8>, w: int, h: int)
    requires
        0 <= w,
        0 <= h,
        is_frame(a, w, h),
        is_frame(b, w, h),
        same_pixels(a, b, w, h),
    ensures
        a == b,
{
    assert forall|i: int| 0 <= i < a.len() implies a[i] == b[i] by {
        let p = i / 4;
        let x = p % w;
        let y = p / w;
        assert(w > 0) by (nonlinear_arith)
            requires
                0 <= i < w * h * 4,
                0 <= h,
        ;
        vstd::arithmetic::div_mod::lemma_fundamental_div_mod(p, w);
        assert(0 <= x < w);
        assert(0 <= p < w * h);
        assert(0 <= y < h) by (nonlinear_arith)
            requires
                p == w * y + x,
                0 <= x < w,
                0 <= p < w * h,
        ;
        assert(pixel_at(a, w, x, y) == pixel_at(b, w, x, y));
        assert(offset(w, x, y) == p * 4) by (nonlinear_arith)
            requires
                p == w * y + x,
        ;
    }
    assert(a =~= b);
}

} // verus!
