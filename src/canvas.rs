//! The RGBA canvas: `image`'s `RgbaImage`, seen through the pixels it holds.
use vstd::prelude::*;
use image::RgbaImage;
use vstd::arithmetic::div_mod::lemma_fundamental_div_mod_converse;

verus! {

/// An RGBA canvas. The image is held out of sight of the proofs, which see it
/// through `pixels_of` and `dims_of` alone.
#[verifier::external_body]
pub struct Canvas {
    img: RgbaImage,
}

/// One RGBA pixel: red, green, blue, alpha.
pub type Rgba8 = (u8, u8, u8, u8);

/// The pixels of an image, keyed by `(x, y)`.
pub uninterp spec fn pixels_of(c: Canvas) -> Map<(u32, u32), Rgba8>;

/// The width and height of an image.
pub uninterp spec fn dims_of(c: Canvas) -> (u32, u32);

/// The coordinates that lie on a `w` by `h` canvas.
pub open spec fn in_rect(w: u32, h: u32, k: (u32, u32)) -> bool {
    k.0 < w && k.1 < h
}

/// An image holds exactly one pixel at each coordinate inside its bounds,
/// and its bytes fit in memory.
pub open spec fn canvas_wf(c: Canvas) -> bool {
    &&& forall|k: (u32, u32)| #[trigger]
        pixels_of(c).dom().contains(k) <==> in_rect(dims_of(c).0, dims_of(c).1, k)
    &&& dims_of(c).0 * dims_of(c).1 * 4 <= usize::MAX
}

/// Channel `j` of a pixel: 0 red, 1 green, 2 blue, 3 alpha.
pub open spec fn pixel_byte(p: Rgba8, j: int) -> u8 {
    if j == 0 {
        p.0
    } else if j == 1 {
        p.1
    } else if j == 2 {
        p.2
    } else {
        p.3
    }
}

/// Byte `i` of the canvas laid out row by row, four bytes (RGBA) per pixel.
pub open spec fn raw_byte(c: Canvas, i: int) -> u8 {
    let p = i / 4;
    let w = dims_of(c).0 as int;
    pixel_byte(pixels_of(c)[((p % w) as u32, (p / w) as u32)], i % 4)
}

impl Canvas {
    /// Relies on `ImageBuffer::new`: a `width` by `height` image, every channel
    /// zero. It panics where the buffer length overflows `usize`.
    #[verifier::external_body]
    pub fn new(width: u32, height: u32) -> (r: Canvas)
        requires
            width as int * height as int * 4 <= usize::MAX,
        ensures
            dims_of(r) == (width, height),
            canvas_wf(r),
            forall|k: (u32, u32)| #[trigger]
                pixels_of(r).dom().contains(k) ==> pixels_of(r)[k] == (0u8, 0u8, 0u8, 0u8),
    {
        Canvas { img: RgbaImage::new(width, height) }
    }

    /// Relies on `ImageBuffer::width`.
    #[verifier::external_body]
    pub fn width(&self) -> (r: u32)
        ensures
            r == dims_of(*self).0,
    {
        self.img.width()
    }

    /// Relies on `ImageBuffer::height`.
    #[verifier::external_body]
    pub fn height(&self) -> (r: u32)
        ensures
            r == dims_of(*self).1,
    {
        self.img.height()
    }

    /// Relies on `ImageBuffer::get_pixel_checked`: the pixel at `(x, y)`, or
    /// `None` outside the image.
    #[verifier::external_body]
    pub fn get_pixel_checked(&self, x: u32, y: u32) -> (r: Option<Rgba8>)
        ensures
            canvas_wf(*self) ==> r == (if in_rect(dims_of(*self).0, dims_of(*self).1, (x, y)) {
                Some(pixels_of(*self)[(x, y)])
            } else {
                None
            }),
    {
        self.img.get_pixel_checked(x, y).map(|p| (p.0[0], p.0[1], p.0[2], p.0[3]))
    }

    /// Relies on `ImageBuffer::put_pixel`: overwrites the pixel at `(x, y)`,
    /// which must lie inside the image.
    #[verifier::external_body]
    pub(crate) fn put_pixel(&mut self, x: u32, y: u32, p: Rgba8)
        requires
            in_rect(dims_of(*old(self)).0, dims_of(*old(self)).1, (x, y)),
        ensures
            dims_of(*final(self)) == dims_of(*old(self)),
            pixels_of(*final(self)) == pixels_of(*old(self)).insert((x, y), p),
    {
        self.img.put_pixel(x, y, image::Rgba([p.0, p.1, p.2, p.3]))
    }

    /// The canvas as bytes, row by row from the top, four (RGBA) per pixel.
    pub fn to_rgba_bytes(&self) -> (r: Vec<u8>)
        requires
            canvas_wf(*self),
        ensures
            r@.len() == 4 * dims_of(*self).0 * dims_of(*self).1,
            forall|i: int| 0 <= i < r@.len() ==> #[trigger] r@[i] == raw_byte(*self, i),
    {
        let w = self.width();
        let h = self.height();
        let mut out: Vec<u8> = Vec::new();
        let mut y: u32 = 0;
        while y < h
            invariant
                canvas_wf(*self),
                dims_of(*self) == (w, h),
                y <= h,
                out@.len() == 4 * (y * w),
                forall|i: int| 0 <= i < out@.len() ==> #[trigger] out@[i] == raw_byte(*self, i),
            decreases h - y,
        {
            let mut x: u32 = 0;
            while x < w
                invariant
                    canvas_wf(*self),
                    dims_of(*self) == (w, h),
                    y < h,
                    x <= w,
                    out@.len() == 4 * (y * w + x),
                    forall|i: int| 0 <= i < out@.len() ==> #[trigger] out@[i] == raw_byte(*self, i),
                decreases w - x,
            {
                let ghost base = 4 * (y * w + x);
                let p = match self.get_pixel_checked(x, y) {
                    Some(p) => p,
                    None => (0, 0, 0, 0),
                };
                proof {
                    assert(y * w + x < w * h) by (nonlinear_arith)
                        requires
                            x < w,
                            y < h,
                    ;
                    lemma_fundamental_div_mod_converse(y * w + x, w as int, y as int, x as int);
                    assert forall|j: int| 0 <= j < 4 implies #[trigger] raw_byte(*self, base + j) == pixel_byte(p, j) by {
                        lemma_fundamental_div_mod_converse(base + j, 4, y * w + x, j);
                    }
                }
                out.push(p.0);
                out.push(p.1);
                out.push(p.2);
                out.push(p.3);
                proof {
                    assert(raw_byte(*self, base + 0) == pixel_byte(p, 0));
                    assert(raw_byte(*self, base + 1) == pixel_byte(p, 1));
                    assert(raw_byte(*self, base + 2) == pixel_byte(p, 2));
                    assert(raw_byte(*self, base + 3) == pixel_byte(p, 3));
                }
                x = x + 1;
            }
            assert(4 * (y * w + w) == 4 * ((y + 1) * w)) by (nonlinear_arith);
            y = y + 1;
        }
        assert(4 * (h * w) == 4 * w * h) by (nonlinear_arith);
        out
    }
}

} // verus!
