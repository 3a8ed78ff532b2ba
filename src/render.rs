use vstd::prelude::*;
use crate::compose::{
    circle_count, concentric_layout, draw_concentric_circles, painted, MAX_SIDE,
};
use crate::pixels::{
    color_byte, in_frame, is_frame, lemma_offset_bounds, lemma_same_pixels_equal, new_frame,
    offset, pixel_at, same_pixels, Color,
};
use crate::rng::{lcg_step, Rng};
use crate::smooth::{antialias, smoothed_pixel};

verus! {

/// The three layouts a render can take.
#[derive(Clone, Copy, Debug, PartialEq, Eq, Structural)]
pub enum PatternMode {
    ConcentricCircles,
    NestedSquares,
    RadialPattern,
}

pub open spec fn mode_of(v: u64) -> PatternMode {
    if v % 3 == 0 {
        PatternMode::ConcentricCircles
    } else if v % 3 == 1 {
        PatternMode::NestedSquares
    } else {
        PatternMode::RadialPattern
    }
}

/// The layout that a value of the generator selects.
pub fn pattern_mode(v: u64) -> (r: PatternMode)
    ensures
        r == mode_of(v),
{
    let m = v % 3;
    if m == 0 {
        PatternMode::ConcentricCircles
    } else if m == 1 {
        PatternMode::NestedSquares
    } else {
        PatternMode::RadialPattern
    }
}

/// A `w` by `h` frame filled with `c`.
pub open spec fn solid_frame(w: int, h: int, c: Color) -> Seq<u8> {
    Seq::new((w * h * 4) as nat, |i: int| color_byte(c, i % 4))
}

/// A `w` by `h` frame whose pixel `(x, y)` is `f(x, y)`.
pub open spec fn frame_of(w: int, h: int, f: spec_fn(int, int) -> Color) -> Seq<u8> {
    Seq::new((w * h * 4) as nat, |i: int| color_byte(f((i / 4) % w, (i / 4) / w), i % 4))
}

proof fn lemma_frame_of_pixel(w: int, h: int, f: spec_fn(int, int) -> Color, x: int, y: int)
    requires
        in_frame(w, h, x, y),
    ensures
        pixel_at(frame_of(w, h, f), w, x, y) == f(x, y),
{
    lemma_offset_bounds(w, h, x, y);
    let p = y * w + x;
    assert(offset(w, x, y) == p * 4);
    assert forall|c: int| 0 <= c < 4 implies (#[trigger] ((p * 4 + c) / 4)) == p by {}
    assert(p % w == x && p / w == y) by {
        vstd::arithmetic::div_mod::lemma_fundamental_div_mod_converse(p, w, y, x);
    }
}

/// The concentric circles for `n` drawn over the background `palette[0]`.
pub open spec fn concentric_image(w: int, h: int, n: int, palette: Seq<Color>) -> Seq<u8> {
    frame_of(
        w,
        h,
        |x: int, y: int|
            painted(
                concentric_layout(w, h, n, palette),
                n,
                solid_frame(w, h, palette[0]),
                w,
                x,
                y,
            ),
    )
}

/// The whole pipeline with the concentric layout: a frame filled with the
/// background `palette[0]`, the circles that one step of `rng` selects, then
/// the smoothing pass.
pub fn render_concentric(rng: &mut Rng, width: u32, height: u32, palette: &[Color]) -> (r: Vec<u8>)
    requires
        width as int * height as int * 4 <= usize::MAX,
        width <= MAX_SIDE,
        height <= MAX_SIDE,
        palette@.len() >= 2,
    ensures
        final(rng).state == lcg_step(old(rng).state),
        is_frame(r@, width as int, height as int),
        forall|x: int, y: int|
            in_frame(width as int, height as int, x, y) ==> #[trigger] pixel_at(
                r@,
                width as int,
                x,
                y,
            ) == smoothed_pixel(
                concentric_image(
                    width as int,
                    height as int,
                    circle_count(final(rng).state),
                    palette@,
                ),
                width as int,
                height as int,
                x,
                y,
            ),
{
    let ghost w = width as int;
    let ghost h = height as int;
    let mut frame = new_frame(width, height, palette[0]);
    proof {
        assert forall|x: int, y: int| in_frame(w, h, x, y) implies #[trigger] pixel_at(
            frame@,
            w,
            x,
            y,
        ) == pixel_at(solid_frame(w, h, palette@[0]), w, x, y) by {
            lemma_offset_bounds(w, h, x, y);
            let o = offset(w, x, y);
            assert(o % 4 == 0);
            assert((o + 1) % 4 == 1);
            assert((o + 2) % 4 == 2);
            assert((o + 3) % 4 == 3);
        }
        lemma_same_pixels_equal(frame@, solid_frame(w, h, palette@[0]), w, h);
    }
    let ghost base = frame@;
    draw_concentric_circles(frame.as_mut_slice(), width, height, rng, palette);
    proof {
        let n = circle_count(rng.state);
        let img = concentric_image(w, h, n, palette@);
        assert forall|x: int, y: int| in_frame(w, h, x, y) implies #[trigger] pixel_at(
            frame@,
            w,
            x,
            y,
        ) == pixel_at(img, w, x, y) by {
            lemma_frame_of_pixel(
                w,
                h,
                |x: int, y: int|
                    painted(
                        concentric_layout(w, h, n, palette@),
                        n,
                        solid_frame(w, h, palette@[0]),
                        w,
                        x,
                        y,
                    ),
                x,
                y,
            );
        }
        lemma_same_pixels_equal(frame@, img, w, h);
    }
    antialias(frame.as_mut_slice(), width, height);
    frame
}

/// Determinism: two renders whose every pixel is what the pipeline gives for
/// the same generator state, frame size and palette are byte-identical.
pub proof fn lemma_render_deterministic(
    a: Seq<u8>,
    b: Seq<u8>,
    state: u64,
    w: int,
    h: int,
    palette: Seq<Color>,
)
    requires
        0 <= w,
        0 <= h,
        is_frame(a, w, h),
        is_frame(b, w, h),
        forall|x: int, y: int|
            in_frame(w, h, x, y) ==> #[trigger] pixel_at(a, w, x, y) == smoothed_pixel(
                concentric_image(w, h, circle_count(lcg_step(state)), palette),
                w,
                h,
                x,
                y,
            ),
        forall|x: int, y: int|
            in_frame(w, h, x, y) ==> #[trigger] pixel_at(b, w, x, y) == smoothed_pixel(
                concentric_image(w, h, circle_count(lcg_step(state)), palette),
                w,
                h,
                x,
                y,
            ),
    ensures
        a == b,
{
    assert(same_pixels(a, b, w, h));
    lemma_same_pixels_equal(a, b, w, h);
}

} // verus!
