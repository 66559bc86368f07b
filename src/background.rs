//! The two-color gradient background.
use vstd::prelude::*;
use crate::canvas::{Canvas, Rgba8, canvas_wf, dims_of, in_rect, pixels_of};

verus! {

/// One channel of the gradient at `(x, y)` on a `w` by `h` canvas: the blend
/// `a (1 - f) + b f` with `f = x / (2 w) + y / (2 h)`, truncated. Over the
/// common denominator `2 w h` the weight of `b` is `x h + y w`.
pub open spec fn blend(a: u8, b: u8, w: u32, h: u32, x: u32, y: u32) -> int {
    let d = 2 * w * h;
    let t = x * h + y * w;
    (a * (d - t) + b * t) / d
}

/// The opaque gradient pixel at `(x, y)`, from `c1` at the top left toward `c2`.
pub open spec fn gradient_pixel(c1: [u8; 3], c2: [u8; 3], w: u32, h: u32, x: u32, y: u32) -> Rgba8 {
    (
        blend(c1[0], c2[0], w, h, x, y) as u8,
        blend(c1[1], c2[1], w, h, x, y) as u8,
        blend(c1[2], c2[2], w, h, x, y) as u8,
        255u8,
    )
}

/// The blend of `a` and `b` with weight `t / d` on `b`, truncated.
fn blend_channel(a: u8, b: u8, t: u128, d: u128) -> (r: u8)
    requires
        0 < d <= 0x4_0000_0000_0000_0000,
        t <= d,
    ensures
        r as int == (a as int * (d as int - t as int) + b as int * t as int) / (d as int),
{
    proof {
        assert(a * (d - t) <= 255 * (d - t)) by (nonlinear_arith)
            requires
                a <= 255,
                t <= d,
        ;
        assert(b * t <= 255 * t) by (nonlinear_arith)
            requires
                b <= 255,
        ;
    }
    let num: u128 = a as u128 * (d - t) + b as u128 * t;
    assert(num / d <= 255) by (nonlinear_arith)
        requires
            num <= 255 * d,
            d > 0,
    ;
    (num / d) as u8
}

proof fn lemma_mul_u32_bound(a: u32, b: u32)
    ensures
        a * b <= 0xffff_ffff * 0xffff_ffff,
{
    assert(a * b <= 0xffff_ffff * 0xffff_ffff) by (nonlinear_arith)
        requires
            a <= 0xffff_ffff,
            b <= 0xffff_ffff,
    ;
}

/// Fills every pixel `(x, y)` of the canvas with the opaque blend of `color1`
/// and `color2` at the factor `x / (2 W) + y / (2 H)`.
pub fn create_gradient_background(img: &mut Canvas, color1: [u8; 3], color2: [u8; 3])
    requires
        canvas_wf(*old(img)),
    ensures
        canvas_wf(*final(img)),
        dims_of(*final(img)) == dims_of(*old(img)),
        forall|k: (u32, u32)|
            #![trigger pixels_of(*final(img))[k]]
            in_rect(dims_of(*final(img)).0, dims_of(*final(img)).1, k) ==> pixels_of(*final(img))[k]
                == gradient_pixel(color1, color2, dims_of(*final(img)).0, dims_of(*final(img)).1, k.0, k.1),
{
    let w = img.width();
    let h = img.height();
    proof {
        lemma_mul_u32_bound(w, h);
    }
    let d: u128 = w as u128 * h as u128 * 2;
    assert(d == 2 * w * h) by (nonlinear_arith)
        requires
            d == w * h * 2,
    ;
    let mut y: u32 = 0;
    while y < h
        invariant
            canvas_wf(*img),
            dims_of(*img) == (w, h),
            d == 2 * w * h,
            y <= h,
            forall|k: (u32, u32)|
                #![trigger pixels_of(*img)[k]]
                in_rect(w, h, k) && k.1 < y ==> pixels_of(*img)[k] == gradient_pixel(color1, color2, w, h, k.0, k.1),
        decreases h - y,
    {
        let mut x: u32 = 0;
        while x < w
            invariant
                canvas_wf(*img),
                dims_of(*img) == (w, h),
                d == 2 * w * h,
                y < h,
                x <= w,
                forall|k: (u32, u32)|
                    #![trigger pixels_of(*img)[k]]
                    in_rect(w, h, k) && (k.1 < y || (k.1 == y && k.0 < x)) ==> pixels_of(*img)[k]
                        == gradient_pixel(color1, color2, w, h, k.0, k.1),
            decreases w - x,
        {
            proof {
                lemma_mul_u32_bound(x, h);
                lemma_mul_u32_bound(y, w);
                assert(x * h + y * w < 2 * w * h) by (nonlinear_arith)
                    requires
                        x < w,
                        y < h,
                ;
                assert(2 * w * h <= 0x4_0000_0000_0000_0000) by (nonlinear_arith)
                    requires
                        w <= 0xffff_ffff,
                        h <= 0xffff_ffff,
                ;
            }
            let t: u128 = x as u128 * h as u128 + y as u128 * w as u128;
            let r = blend_channel(color1[0], color2[0], t, d);
            let g = blend_channel(color1[1], color2[1], t, d);
            let b = blend_channel(color1[2], color2[2], t, d);
            img.put_pixel(x, y, (r, g, b, 255));
            x = x + 1;
        }
        y = y + 1;
    }
}

/// A new `width` by `height` canvas holding the gradient from `color1` to
/// `color2`.
pub fn gradient_canvas(width: u32, height: u32, color1: [u8; 3], color2: [u8; 3]) -> (r: Canvas)
    requires
        width as int * height as int * 4 <= usize::MAX,
    ensures
        canvas_wf(r),
        dims_of(r) == (width, height),
        forall|k: (u32, u32)|
            #![trigger pixels_of(r)[k]]
            in_rect(width, height, k) ==> pixels_of(r)[k] == gradient_pixel(color1, color2, width, height, k.0, k.1),
{
    let mut img = Canvas::new(width, height);
    create_gradient_background(&mut img, color1, color2);
    img
}

/// The gradient starts at exactly the first color in the top left corner.
pub proof fn lemma_gradient_origin(c1: [u8; 3], c2: [u8; 3], w: u32, h: u32)
    requires
        w > 0,
        h > 0,
    ensures
        gradient_pixel(c1, c2, w, h, 0, 0) == (c1[0], c1[1], c1[2], 255u8),
{
    let d = 2 * w * h;
    assert(d > 0) by (nonlinear_arith)
        requires
            w > 0,
            h > 0,
            d == 2 * w * h,
    ;
    assert(blend(c1[0], c2[0], w, h, 0, 0) == c1[0] as int) by {
        assert((c1[0] * (d - 0) + c2[0] * 0) / d == c1[0] as int) by (nonlinear_arith)
            requires
                d > 0,
        ;
    }
    assert(blend(c1[1], c2[1], w, h, 0, 0) == c1[1] as int) by {
        assert((c1[1] * (d - 0) + c2[1] * 0) / d == c1[1] as int) by (nonlinear_arith)
            requires
                d > 0,
        ;
    }
    assert(blend(c1[2], c2[2], w, h, 0, 0) == c1[2] as int) by {
        assert((c1[2] * (d - 0) + c2[2] * 0) / d == c1[2] as int) by (nonlinear_arith)
            requires
                d > 0,
        ;
    }
}

} // verus!
