//! Sampling the average color of the canvas around a point.
use vstd::prelude::*;
use crate::canvas::{Canvas, Rgba8, canvas_wf, dims_of, in_rect, pixels_of};

verus! {

/// Channel `ch` (0 red, 1 green, 2 blue) of a pixel.
pub open spec fn channel(p: Rgba8, ch: int) -> int {
    if ch == 0 {
        p.0 as int
    } else if ch == 1 {
        p.1 as int
    } else {
        p.2 as int
    }
}

/// The sum of channel `ch` over a sequence of pixels.
pub open spec fn channel_sum(s: Seq<Rgba8>, ch: int) -> int
    decreases s.len(),
{
    if s.len() == 0 {
        0
    } else {
        channel_sum(s.drop_last(), ch) + channel(s.last(), ch)
    }
}

/// Whether `(x, y)` lies on the canvas.
pub open spec fn on_canvas(c: Canvas, x: int, y: int) -> bool {
    0 <= x < dims_of(c).0 && 0 <= y < dims_of(c).1
}

/// The pixels of row `y` with `x0 <= x < x1` that lie on the canvas, left to right.
pub open spec fn row_samples(c: Canvas, y: int, x0: int, x1: int) -> Seq<Rgba8>
    decreases x1 - x0,
{
    if x1 <= x0 {
        seq![]
    } else {
        let s = row_samples(c, y, x0, x1 - 1);
        if on_canvas(c, x1 - 1, y) {
            s.push(pixels_of(c)[((x1 - 1) as u32, y as u32)])
        } else {
            s
        }
    }
}

/// The pixels with `x0 <= x < x1` and `y0 <= y < y1` that lie on the canvas,
/// row by row.
pub open spec fn window_samples(c: Canvas, x0: int, x1: int, y0: int, y1: int) -> Seq<Rgba8>
    decreases y1 - y0,
{
    if y1 <= y0 {
        seq![]
    } else {
        window_samples(c, x0, x1, y0, y1 - 1) + row_samples(c, y1 - 1, x0, x1)
    }
}

/// The 3 by 3 square centred on `(cx, cy)`, cut at zero.
pub open spec fn center_samples(c: Canvas, cx: int, cy: int) -> Seq<Rgba8> {
    let x0 = if cx >= 1 { cx - 1 } else { 0 };
    let y0 = if cy >= 1 { cy - 1 } else { 0 };
    window_samples(c, x0, cx + 2, y0, cy + 2)
}

/// The per-channel average of the samples, truncated; neutral gray where
/// there are none.
pub open spec fn average_color(s: Seq<Rgba8>) -> [u8; 3] {
    if s.len() > 0 {
        [
            (channel_sum(s, 0) / s.len() as int) as u8,
            (channel_sum(s, 1) / s.len() as int) as u8,
            (channel_sum(s, 2) / s.len() as int) as u8,
        ]
    } else {
        [128u8, 128u8, 128u8]
    }
}

proof fn lemma_sum_push(s: Seq<Rgba8>, p: Rgba8)
    ensures
        channel_sum(s.push(p), 0) == channel_sum(s, 0) + p.0,
        channel_sum(s.push(p), 1) == channel_sum(s, 1) + p.1,
        channel_sum(s.push(p), 2) == channel_sum(s, 2) + p.2,
{
    assert(s.push(p).drop_last() =~= s);
}

/// Averages, per channel, the pixels of the 3 by 3 square centred on
/// `(w / 2, h / 2)` that lie on the canvas; neutral gray `(128, 128, 128)`
/// where none does.
pub fn sample_center_color(img: &Canvas, w: u32, h: u32) -> (r: [u8; 3])
    requires
        canvas_wf(*img),
    ensures
        r == average_color(center_samples(*img, (w / 2) as int, (h / 2) as int)),
{
    let center_x = w / 2;
    let center_y = h / 2;
    let x0: u32 = center_x.saturating_sub(1);
    let x1: u32 = center_x + 1;
    let y0: u32 = center_y.saturating_sub(1);
    let y1: u32 = center_y + 1;
    let mut r_sum: u32 = 0;
    let mut g_sum: u32 = 0;
    let mut b_sum: u32 = 0;
    let mut count: u32 = 0;
    let mut y: u32 = y0;
    while y <= y1
        invariant
            canvas_wf(*img),
            y0 <= y <= y1 + 1,
            y1 == center_y + 1,
            y0 == (if center_y >= 1 { center_y - 1 } else { 0 }),
            x1 == center_x + 1,
            x0 == (if center_x >= 1 { center_x - 1 } else { 0 }),
            center_x <= 0x7fff_ffff,
            center_y <= 0x7fff_ffff,
            count <= 3 * (y - y0),
            r_sum <= 255 * count,
            g_sum <= 255 * count,
            b_sum <= 255 * count,
            count == window_samples(*img, x0 as int, x1 + 1, y0 as int, y as int).len(),
            r_sum == channel_sum(window_samples(*img, x0 as int, x1 + 1, y0 as int, y as int), 0),
            g_sum == channel_sum(window_samples(*img, x0 as int, x1 + 1, y0 as int, y as int), 1),
            b_sum == channel_sum(window_samples(*img, x0 as int, x1 + 1, y0 as int, y as int), 2),
        decreases y1 + 1 - y,
    {
        let ghost done = window_samples(*img, x0 as int, x1 + 1, y0 as int, y as int);
        let mut x: u32 = x0;
        while x <= x1
            invariant
                canvas_wf(*img),
                x0 <= x <= x1 + 1,
                y0 <= y <= y1,
                y1 == center_y + 1,
                y0 == (if center_y >= 1 { center_y - 1 } else { 0 }),
                x1 == center_x + 1,
                x0 == (if center_x >= 1 { center_x - 1 } else { 0 }),
                center_x <= 0x7fff_ffff,
                center_y <= 0x7fff_ffff,
                count <= 3 * (y - y0) + (x - x0),
                r_sum <= 255 * count,
                g_sum <= 255 * count,
                b_sum <= 255 * count,
                count == (done + row_samples(*img, y as int, x0 as int, x as int)).len(),
                r_sum == channel_sum(done + row_samples(*img, y as int, x0 as int, x as int), 0),
                g_sum == channel_sum(done + row_samples(*img, y as int, x0 as int, x as int), 1),
                b_sum == channel_sum(done + row_samples(*img, y as int, x0 as int, x as int), 2),
            decreases x1 + 1 - x,
        {
            let ghost before = done + row_samples(*img, y as int, x0 as int, x as int);
            match img.get_pixel_checked(x, y) {
                Some(pixel) => {
                    proof {
                        assert(done + row_samples(*img, y as int, x0 as int, x + 1) =~= before.push(pixel));
                        lemma_sum_push(before, pixel);
                    }
                    r_sum = r_sum + pixel.0 as u32;
                    g_sum = g_sum + pixel.1 as u32;
                    b_sum = b_sum + pixel.2 as u32;
                    count = count + 1;
                },
                None => {
                    assert(done + row_samples(*img, y as int, x0 as int, x + 1) =~= before);
                },
            }
            x = x + 1;
        }
        assert(window_samples(*img, x0 as int, x1 + 1, y0 as int, y + 1) =~= done + row_samples(
            *img,
            y as int,
            x0 as int,
            x1 + 1,
        ));
        y = y + 1;
    }
    if count > 0 {
        proof {
            assert(r_sum / count <= 255) by (nonlinear_arith)
                requires
                    r_sum <= 255 * count,
                    count > 0,
            ;
            assert(g_sum / count <= 255) by (nonlinear_arith)
                requires
                    g_sum <= 255 * count,
                    count > 0,
            ;
            assert(b_sum / count <= 255) by (nonlinear_arith)
                requires
                    b_sum <= 255 * count,
                    count > 0,
            ;
        }
        [(r_sum / count) as u8, (g_sum / count) as u8, (b_sum / count) as u8]
    } else {
        [128, 128, 128]
    }
}

} // verus!
