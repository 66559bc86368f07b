//! Compositing glyph coverage onto the canvas.
use vstd::prelude::*;
use crate::canvas::{Canvas, Rgba8, canvas_wf, dims_of, in_rect, pixels_of};

verus! {

/// The 8-bit coverage of one rasterized glyph: `alpha` holds `width` by
/// `height` values, row by row, for the pixels from `(min_x, min_y)` on.
pub struct GlyphMask {
    pub min_x: i32,
    pub min_y: i32,
    pub width: u32,
    pub height: u32,
    pub alpha: Vec<u8>,
}

impl GlyphMask {
    /// The coverage holds exactly one value per pixel of the mask.
    pub open spec fn wf(&self) -> bool {
        self.alpha@.len() == self.width * self.height
    }

    /// Whether the absolute pixel `(x, y)` lies inside the mask.
    pub open spec fn covers(&self, x: int, y: int) -> bool {
        0 <= x - self.min_x < self.width && 0 <= y - self.min_y < self.height
    }

    /// The coverage at the absolute pixel `(x, y)`, zero outside the mask.
    pub open spec fn alpha_at(&self, x: int, y: int) -> int {
        if self.covers(x, y) {
            self.alpha@[(y - self.min_y) * self.width + (x - self.min_x)] as int
        } else {
            0
        }
    }
}

/// The foreground color at opacity `a`.
pub open spec fn ink(fg: [u8; 3], a: u8) -> Rgba8 {
    (fg[0], fg[1], fg[2], a)
}

/// The pixels after one coverage value `a` at `(x, y)`: overwritten with the
/// foreground color at that opacity where the pixel is on the `w` by `h`
/// canvas and `a` is not zero, unchanged otherwise.
pub open spec fn plotted(
    px: Map<(u32, u32), Rgba8>,
    w: u32,
    h: u32,
    x: int,
    y: int,
    a: u8,
    fg: [u8; 3],
) -> Map<(u32, u32), Rgba8> {
    if 0 <= x < w && 0 <= y < h && a > 0 {
        px.insert((x as u32, y as u32), ink(fg, a))
    } else {
        px
    }
}

/// The pixels after a whole glyph: every pixel on the canvas where the mask
/// has non-zero coverage holds the foreground color at that opacity.
pub open spec fn composited(
    px: Map<(u32, u32), Rgba8>,
    w: u32,
    h: u32,
    m: GlyphMask,
    fg: [u8; 3],
) -> Map<(u32, u32), Rgba8> {
    Map::new(
        |k: (u32, u32)| px.dom().contains(k),
        |k: (u32, u32)|
            if in_rect(w, h, k) && m.alpha_at(k.0 as int, k.1 as int) > 0 {
                ink(fg, m.alpha_at(k.0 as int, k.1 as int) as u8)
            } else {
                px[k]
            },
    )
}

/// The pixels after a run of glyphs, composited in order.
pub open spec fn rendered(
    px: Map<(u32, u32), Rgba8>,
    w: u32,
    h: u32,
    ms: Seq<GlyphMask>,
    fg: [u8; 3],
) -> Map<(u32, u32), Rgba8>
    decreases ms.len(),
{
    if ms.len() == 0 {
        px
    } else {
        composited(rendered(px, w, h, ms.drop_last(), fg), w, h, ms.last(), fg)
    }
}

/// Writes one coverage value of a glyph whose pixel bounds start at
/// `(min_x, min_y)`: the pixel `(min_x + ox, min_y + oy)` takes the foreground
/// color at opacity `alpha`, unless it lies off the canvas or `alpha` is zero.
pub fn plot_coverage(img: &mut Canvas, min_x: i32, min_y: i32, ox: u32, oy: u32, alpha: u8, fg: [u8; 3])
    requires
        canvas_wf(*old(img)),
    ensures
        canvas_wf(*final(img)),
        dims_of(*final(img)) == dims_of(*old(img)),
        pixels_of(*final(img)) == plotted(
            pixels_of(*old(img)),
            dims_of(*old(img)).0,
            dims_of(*old(img)).1,
            min_x + ox,
            min_y + oy,
            alpha,
            fg,
        ),
{
    let px: i64 = ox as i64 + min_x as i64;
    let py: i64 = oy as i64 + min_y as i64;
    if px >= 0 && py >= 0 {
        let w = img.width();
        let h = img.height();
        if px < w as i64 && py < h as i64 && alpha > 0 {
            img.put_pixel(px as u32, py as u32, (fg[0], fg[1], fg[2], alpha));
        }
    }
}

/// Whether the mask's pixel at `(x, y)` comes before the mask offset
/// `(ox, oy)` in row order.
spec fn visited(m: GlyphMask, x: int, y: int, ox: int, oy: int) -> bool {
    m.covers(x, y) && (y - m.min_y < oy || (y - m.min_y == oy && x - m.min_x < ox))
}

proof fn lemma_mask_index(ox: u32, oy: u32, w: u32, h: u32)
    requires
        ox < w,
        oy < h,
    ensures
        oy * w + ox < w * h,
{
    assert(oy * w + ox < w * h) by (nonlinear_arith)
        requires
            ox < w,
            oy < h,
    ;
}

/// Composites one glyph: every pixel on the canvas where the mask has
/// non-zero coverage takes the foreground color at that opacity; every other
/// pixel keeps its value.
pub fn composite_glyph(img: &mut Canvas, mask: &GlyphMask, fg: [u8; 3])
    requires
        canvas_wf(*old(img)),
        mask.wf(),
    ensures
        canvas_wf(*final(img)),
        dims_of(*final(img)) == dims_of(*old(img)),
        pixels_of(*final(img)) == composited(
            pixels_of(*old(img)),
            dims_of(*old(img)).0,
            dims_of(*old(img)).1,
            *mask,
            fg,
        ),
{
    let ghost old_px = pixels_of(*img);
    let ghost dims = dims_of(*img);
    let ghost m = *mask;
    let n: usize = mask.alpha.len();
    let mut oy: u32 = 0;
    while oy < mask.height
        invariant
            n == mask.alpha@.len(),
            canvas_wf(*img),
            dims_of(*img) == dims,
            mask.wf(),
            m == *mask,
            canvas_wf(*old(img)),
            old_px == pixels_of(*old(img)),
            dims == dims_of(*old(img)),
            oy <= mask.height,
            forall|k: (u32, u32)|
                #![trigger pixels_of(*img)[k]]
                in_rect(dims.0, dims.1, k) ==> pixels_of(*img)[k] == (if visited(m, k.0 as int, k.1 as int, 0, oy as int)
                    && m.alpha_at(k.0 as int, k.1 as int) > 0 {
                    ink(fg, m.alpha_at(k.0 as int, k.1 as int) as u8)
                } else {
                    old_px[k]
                }),
        decreases mask.height - oy,
    {
        let mut ox: u32 = 0;
        while ox < mask.width
            invariant
                n == mask.alpha@.len(),
                canvas_wf(*img),
                dims_of(*img) == dims,
                mask.wf(),
                m == *mask,
                old_px == pixels_of(*old(img)),
                canvas_wf(*old(img)),
                dims == dims_of(*old(img)),
                oy < mask.height,
                ox <= mask.width,
                forall|k: (u32, u32)|
                    #![trigger pixels_of(*img)[k]]
                    in_rect(dims.0, dims.1, k) ==> pixels_of(*img)[k] == (if visited(m, k.0 as int, k.1 as int, ox as int, oy as int)
                        && m.alpha_at(k.0 as int, k.1 as int) > 0 {
                        ink(fg, m.alpha_at(k.0 as int, k.1 as int) as u8)
                    } else {
                        old_px[k]
                    }),
            decreases mask.width - ox,
        {
            proof {
                lemma_mask_index(ox, oy, mask.width, mask.height);
            }
            let idx: usize = oy as usize * mask.width as usize + ox as usize;
            let a: u8 = mask.alpha[idx];
            plot_coverage(img, mask.min_x, mask.min_y, ox, oy, a, fg);
            assert forall|k: (u32, u32)|
                #![trigger pixels_of(*img)[k]]
                in_rect(dims.0, dims.1, k) implies pixels_of(*img)[k] == (if visited(m, k.0 as int, k.1 as int, ox + 1, oy as int)
                    && m.alpha_at(k.0 as int, k.1 as int) > 0 {
                    ink(fg, m.alpha_at(k.0 as int, k.1 as int) as u8)
                } else {
                    old_px[k]
                }) by {
                if k.0 as int == mask.min_x + ox && k.1 as int == mask.min_y + oy {
                    assert(m.alpha_at(k.0 as int, k.1 as int) == a as int);
                }
            }
            ox = ox + 1;
        }
        assert forall|k: (u32, u32)|
            #![trigger pixels_of(*img)[k]]
            in_rect(dims.0, dims.1, k) implies pixels_of(*img)[k] == (if visited(m, k.0 as int, k.1 as int, 0, oy + 1)
                && m.alpha_at(k.0 as int, k.1 as int) > 0 {
                ink(fg, m.alpha_at(k.0 as int, k.1 as int) as u8)
            } else {
                old_px[k]
            }) by {
            assert(visited(m, k.0 as int, k.1 as int, 0, oy + 1) == visited(
                m,
                k.0 as int,
                k.1 as int,
                mask.width as int,
                oy as int,
            ));
        }
        oy = oy + 1;
    }
    assert(pixels_of(*img) =~= composited(old_px, dims.0, dims.1, m, fg)) by {
        assert forall|k: (u32, u32)| #[trigger] pixels_of(*img).dom().contains(k) implies pixels_of(*img)[k]
            == composited(old_px, dims.0, dims.1, m, fg)[k] by {
            assert(visited(m, k.0 as int, k.1 as int, 0, mask.height as int) == m.covers(
                k.0 as int,
                k.1 as int,
            ));
        }
    }
}

/// Composites a run of glyphs in order, each onto the result of the ones
/// before it.
pub fn render_glyphs(img: &mut Canvas, masks: &Vec<GlyphMask>, fg: [u8; 3])
    requires
        canvas_wf(*old(img)),
        forall|i: int| 0 <= i < masks@.len() ==> #[trigger] masks@[i].wf(),
    ensures
        canvas_wf(*final(img)),
        dims_of(*final(img)) == dims_of(*old(img)),
        pixels_of(*final(img)) == rendered(
            pixels_of(*old(img)),
            dims_of(*old(img)).0,
            dims_of(*old(img)).1,
            masks@,
            fg,
        ),
{
    let ghost old_px = pixels_of(*img);
    let ghost dims = dims_of(*img);
    let mut i: usize = 0;
    assert(masks@.subrange(0, 0) =~= Seq::<GlyphMask>::empty());
    while i < masks.len()
        invariant
            canvas_wf(*img),
            dims_of(*img) == dims,
            i <= masks@.len(),
            forall|j: int| 0 <= j < masks@.len() ==> #[trigger] masks@[j].wf(),
            pixels_of(*img) == rendered(old_px, dims.0, dims.1, masks@.subrange(0, i as int), fg),
        decreases masks.len() - i,
    {
        composite_glyph(img, &masks[i], fg);
        assert(masks@.subrange(0, i + 1).drop_last() =~= masks@.subrange(0, i as int));
        i = i + 1;
    }
    assert(masks@.subrange(0, i as int) =~= masks@);
}

/// Rendering an empty run leaves every pixel as it was.
pub proof fn lemma_empty_run_unchanged(px: Map<(u32, u32), Rgba8>, w: u32, h: u32, fg: [u8; 3])
    ensures
        rendered(px, w, h, Seq::<GlyphMask>::empty(), fg) == px,
{
}

/// A run whose masks have no coverage anywhere leaves every pixel as it was.
pub proof fn lemma_blank_run_unchanged(px: Map<(u32, u32), Rgba8>, w: u32, h: u32, ms: Seq<GlyphMask>, fg: [u8; 3])
    requires
        forall|i: int, x: int, y: int| 0 <= i < ms.len() ==> #[trigger] ms[i].alpha_at(x, y) == 0,
    ensures
        rendered(px, w, h, ms, fg) == px,
    decreases ms.len(),
{
    if ms.len() > 0 {
        let rest = ms.drop_last();
        assert forall|i: int, x: int, y: int| 0 <= i < rest.len() implies #[trigger] rest[i].alpha_at(x, y) == 0 by {
            assert(rest[i] == ms[i]);
        }
        lemma_blank_run_unchanged(px, w, h, rest, fg);
        let last = ms.last();
        assert forall|x: int, y: int| #[trigger] last.alpha_at(x, y) == 0 by {
            assert(ms[ms.len() - 1].alpha_at(x, y) == 0);
        }
        assert(composited(px, w, h, last, fg) =~= px);
    }
}

/// Compositing a glyph changes only pixels that lie on the canvas and inside
/// the glyph's mask, and keeps the set of pixels.
pub proof fn lemma_composite_stays_inside(px: Map<(u32, u32), Rgba8>, w: u32, h: u32, m: GlyphMask, fg: [u8; 3])
    ensures
        composited(px, w, h, m, fg).dom() == px.dom(),
        forall|k: (u32, u32)|
            px.dom().contains(k) && #[trigger] composited(px, w, h, m, fg)[k] != px[k] ==> in_rect(w, h, k)
                && m.covers(k.0 as int, k.1 as int),
{
    assert(composited(px, w, h, m, fg).dom() =~= px.dom());
}

/// Rendering a run, however wide or tall, changes only pixels that lie on
/// the canvas, and keeps the set of pixels.
pub proof fn lemma_run_stays_on_canvas(px: Map<(u32, u32), Rgba8>, w: u32, h: u32, ms: Seq<GlyphMask>, fg: [u8; 3])
    ensures
        rendered(px, w, h, ms, fg).dom() == px.dom(),
        forall|k: (u32, u32)|
            px.dom().contains(k) && #[trigger] rendered(px, w, h, ms, fg)[k] != px[k] ==> in_rect(w, h, k),
    decreases ms.len(),
{
    if ms.len() > 0 {
        let prev = rendered(px, w, h, ms.drop_last(), fg);
        lemma_run_stays_on_canvas(px, w, h, ms.drop_last(), fg);
        lemma_composite_stays_inside(prev, w, h, ms.last(), fg);
        assert forall|k: (u32, u32)|
            px.dom().contains(k) && #[trigger] rendered(px, w, h, ms, fg)[k] != px[k] implies in_rect(w, h, k) by {
            if composited(prev, w, h, ms.last(), fg)[k] == prev[k] {
                assert(prev[k] != px[k]);
            }
        }
    }
}

} // verus!
