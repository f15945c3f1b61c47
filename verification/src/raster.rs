//! An RGBA raster held as plain bytes: the canvas that layers are composed
//! onto, with pixel-exact contracts for filling, pasting (`blit`) and
//! cropping. Pixels are stored row-major, `width * height` of them.

use vstd::math::min;
use vstd::prelude::*;

verus! {

/// One RGBA pixel.
#[derive(Clone, Copy, Debug, PartialEq, Eq, Structural)]
pub struct Pixel {
    pub r: u8,
    pub g: u8,
    pub b: u8,
    pub a: u8,
}

/// The fully transparent pixel: all four channels zero.
pub open spec fn transparent() -> Pixel {
    Pixel { r: 0, g: 0, b: 0, a: 0 }
}

/// A `width` by `height` raster of pixels, row-major.
pub struct Raster {
    pub width: u32,
    pub height: u32,
    pub pixels: Vec<Pixel>,
}

proof fn lemma_index_bound(x: int, y: int, w: int, h: int)
    requires
        0 <= x < w,
        0 <= y < h,
    ensures
        0 <= y * w + x < w * h,
{
    assert(y * w + x < w * h) by (nonlinear_arith)
        requires
            0 <= x < w,
            0 <= y < h,
    ;
}

proof fn lemma_index_unique(w: int, x1: int, y1: int, x2: int, y2: int)
    requires
        0 <= x1 < w,
        0 <= x2 < w,
        0 <= y1,
        0 <= y2,
        y1 * w + x1 == y2 * w + x2,
    ensures
        x1 == x2 && y1 == y2,
{
    assert(x1 == x2 && y1 == y2) by (nonlinear_arith)
        requires
            0 <= x1 < w,
            0 <= x2 < w,
            0 <= y1,
            0 <= y2,
            y1 * w + x1 == y2 * w + x2,
    ;
}

impl Raster {
    /// The pixel vector holds exactly one pixel per coordinate.
    pub open spec fn wf(self) -> bool {
        self.pixels@.len() == self.width * self.height
    }

    /// The pixel at column `x`, row `y`.
    pub open spec fn pix(self, x: int, y: int) -> Pixel {
        self.pixels@[y * self.width + x]
    }

    /// A raster of the given size with every pixel equal to `p`.
    pub fn new_fill(width: u32, height: u32, p: Pixel) -> (r: Raster)
        requires
            (width as int) * (height as int) <= usize::MAX,
        ensures
            r.wf(),
            r.width == width,
            r.height == height,
            forall|x: int, y: int|
                0 <= x < width && 0 <= y < height ==> r.pix(x, y) == p,
    {
        let n: usize = (width as usize) * (height as usize);
        let mut pixels: Vec<Pixel> = Vec::new();
        while pixels.len() < n
            invariant
                pixels@.len() <= n,
                forall|k: int| 0 <= k < pixels@.len() ==> pixels@[k] == p,
            decreases n - pixels@.len(),
        {
            pixels.push(p);
        }
        let r = Raster { width, height, pixels };
        proof {
            assert forall|x: int, y: int|
                0 <= x < width && 0 <= y < height implies r.pix(x, y) == p by {
                lemma_index_bound(x, y, width as int, height as int);
            }
        }
        r
    }

    /// Reads the pixel at `(x, y)`.
    pub fn get(&self, x: u32, y: u32) -> (p: Pixel)
        requires
            self.wf(),
            x < self.width,
            y < self.height,
        ensures
            p == self.pix(x as int, y as int),
    {
        proof {
            lemma_index_bound(x as int, y as int, self.width as int, self.height as int);
        }
        let n = self.pixels.len();
        assert(y * self.width + x < n);
        let idx: usize = (y as usize) * (self.width as usize) + (x as usize);
        self.pixels[idx]
    }

    /// Overwrites the pixel at `(x, y)`; every other pixel keeps its value.
    fn set_pix(&mut self, x: u32, y: u32, p: Pixel)
        requires
            old(self).wf(),
            x < old(self).width,
            y < old(self).height,
        ensures
            final(self).wf(),
            final(self).width == old(self).width,
            final(self).height == old(self).height,
            final(self).pix(x as int, y as int) == p,
            forall|x2: int, y2: int|
                0 <= x2 < old(self).width && 0 <= y2 < old(self).height && !(x2 == x && y2 == y)
                    ==> final(self).pix(x2, y2) == old(self).pix(x2, y2),
    {
        proof {
            lemma_index_bound(x as int, y as int, self.width as int, self.height as int);
        }
        let n = self.pixels.len();
        assert(y * self.width + x < n);
        let idx: usize = (y as usize) * (self.width as usize) + (x as usize);
        self.pixels.set(idx, p);
        proof {
            assert forall|x2: int, y2: int|
                0 <= x2 < self.width && 0 <= y2 < self.height && !(x2 == x && y2 == y) implies self.pix(
                x2,
                y2,
            ) == old(self).pix(x2, y2) by {
                lemma_index_bound(x2, y2, self.width as int, self.height as int);
                if y2 * self.width + x2 == y * self.width + x {
                    lemma_index_unique(self.width as int, x2, y2, x as int, y as int);
                }
            }
        }
    }

    /// Pastes `src` with its top-left corner at `(x0, y0)`: pixels in the
    /// pasted footprint are replaced by the pixels of `src`, all others keep
    /// their value. Pasting never blends.
    pub fn blit(&mut self, src: &Raster, x0: u32, y0: u32)
        requires
            old(self).wf(),
            src.wf(),
            x0 + src.width <= old(self).width,
            y0 + src.height <= old(self).height,
        ensures
            final(self).wf(),
            final(self).width == old(self).width,
            final(self).height == old(self).height,
            forall|x: int, y: int|
                0 <= x < old(self).width && 0 <= y < old(self).height ==> final(self).pix(x, y)
                    == (if x0 <= x < x0 + src.width && y0 <= y < y0 + src.height {
                    src.pix(x - x0, y - y0)
                } else {
                    old(self).pix(x, y)
                }),
    {
        let ghost orig = *self;
        let mut dy: u32 = 0;
        while dy < src.height
            invariant
                dy <= src.height,
                self.wf(),
                self.width == orig.width,
                self.height == orig.height,
                src.wf(),
                orig.wf(),
                x0 + src.width <= orig.width,
                y0 + src.height <= orig.height,
                forall|x: int, y: int|
                    0 <= x < orig.width && 0 <= y < orig.height ==> self.pix(x, y) == (if x0 <= x
                        < x0 + src.width && y0 <= y < y0 + dy {
                        src.pix(x - x0, y - y0)
                    } else {
                        orig.pix(x, y)
                    }),
            decreases src.height - dy,
        {
            let mut dx: u32 = 0;
            while dx < src.width
                invariant
                    dx <= src.width,
                    dy < src.height,
                    self.wf(),
                    self.width == orig.width,
                    self.height == orig.height,
                    src.wf(),
                    orig.wf(),
                    x0 + src.width <= orig.width,
                    y0 + src.height <= orig.height,
                    forall|x: int, y: int|
                        0 <= x < orig.width && 0 <= y < orig.height ==> self.pix(x, y) == (if (x0
                            <= x < x0 + src.width && y0 <= y < y0 + dy) || (y == y0 + dy && x0 <= x
                            < x0 + dx) {
                            src.pix(x - x0, y - y0)
                        } else {
                            orig.pix(x, y)
                        }),
                decreases src.width - dx,
            {
                let p = src.get(dx, dy);
                self.set_pix(x0 + dx, y0 + dy, p);
                dx = dx + 1;
            }
            dy = dy + 1;
        }
    }

    /// The top-left `min(w, width)` by `min(h, height)` corner of `self`:
    /// cropping clips but never pads.
    pub fn crop(&self, w: u32, h: u32) -> (r: Raster)
        requires
            self.wf(),
        ensures
            r.wf(),
            r.width == min(w as int, self.width as int),
            r.height == min(h as int, self.height as int),
            forall|x: int, y: int|
                0 <= x < r.width && 0 <= y < r.height ==> r.pix(x, y) == self.pix(x, y),
    {
        let nw: u32 = if w < self.width {
            w
        } else {
            self.width
        };
        let nh: u32 = if h < self.height {
            h
        } else {
            self.height
        };
        let mut pixels: Vec<Pixel> = Vec::new();
        let mut y: u32 = 0;
        while y < nh
            invariant
                y <= nh,
                nw <= self.width,
                nh <= self.height,
                self.wf(),
                pixels@.len() == y * nw,
                forall|x2: int, y2: int|
                    0 <= x2 < nw && 0 <= y2 < y ==> pixels@[y2 * nw + x2] == self.pix(x2, y2),
            decreases nh - y,
        {
            let mut x: u32 = 0;
            proof {
                assert(y * nw + 0 == y * nw);
            }
            while x < nw
                invariant
                    x <= nw,
                    y < nh,
                    nw <= self.width,
                    nh <= self.height,
                    self.wf(),
                    pixels@.len() == y * nw + x,
                    forall|x2: int, y2: int|
                        0 <= x2 < nw && 0 <= y2 < y ==> pixels@[y2 * nw + x2] == self.pix(x2, y2),
                    forall|x2: int| 0 <= x2 < x ==> pixels@[y * nw + x2] == self.pix(x2, y as int),
                decreases nw - x,
            {
                proof {
                    lemma_index_bound(x as int, y as int, nw as int, nh as int);
                    lemma_index_bound(
                        (nw - 1) as int,
                        (nh - 1) as int,
                        self.width as int,
                        self.height as int,
                    );
                    assert((nw as int) * (nh as int) <= (self.width as int) * (self.height as int))
                        by (nonlinear_arith)
                        requires
                            0 < nw <= self.width,
                            0 < nh <= self.height,
                    ;
                }
                let p = self.get(x, y);
                let ghost old_pixels = pixels@;
                pixels.push(p);
                proof {
                    assert forall|x2: int, y2: int|
                        0 <= x2 < nw && 0 <= y2 < y implies pixels@[y2 * nw + x2] == self.pix(
                        x2,
                        y2,
                    ) by {
                        lemma_index_bound(x2, y2, nw as int, y as int);
                        assert((y2 * nw + x2) < y * nw) by (nonlinear_arith)
                            requires
                                0 <= x2 < nw,
                                0 <= y2 < y,
                        ;
                        assert(pixels@[y2 * nw + x2] == old_pixels[y2 * nw + x2]);
                    }
                }
                x = x + 1;
            }
            proof {
                assert((y + 1) * nw == y * nw + nw) by (nonlinear_arith);
            }
            y = y + 1;
        }
        let r = Raster { width: nw, height: nh, pixels };
        proof {
            assert(r.pixels@.len() == nw * nh) by (nonlinear_arith)
                requires
                    r.pixels@.len() == (nh as int) * (nw as int),
            ;
        }
        r
    }

    /// A raster built from `4 * width * height` RGBA bytes, row-major, in
    /// channel order red, green, blue, alpha — the layout that PNG decoders
    /// hand out. `None` exactly when the byte count does not match.
    pub fn from_rgba(width: u32, height: u32, bytes: &Vec<u8>) -> (r: Option<Raster>)
        ensures
            match r {
                Some(img) => {
                    &&& bytes@.len() == 4 * ((width as int) * (height as int))
                    &&& img.wf()
                    &&& img.width == width
                    &&& img.height == height
                    &&& forall|k: int|
                        0 <= k < (width as int) * (height as int) ==> img.pixels@[k] == (Pixel {
                            r: bytes@[4 * k],
                            g: bytes@[4 * k + 1],
                            b: bytes@[4 * k + 2],
                            a: bytes@[4 * k + 3],
                        })
                },
                None => bytes@.len() != 4 * ((width as int) * (height as int)),
            },
    {
        let n = bytes.len();
        proof {
            assert((width as int) * (height as int) <= 0xffff_ffff_ffff_ffff && (4 * (width as int))
                * (height as int) == 4 * ((width as int) * (height as int)) && 4 * ((width as int)
                * (height as int)) <= 0x4_0000_0000_0000_0000) by (nonlinear_arith)
                requires
                    width <= 0xffff_ffffu32,
                    height <= 0xffff_ffffu32,
            ;
        }
        let expect: u128 = 4u128 * (width as u128) * (height as u128);
        if (n as u128) != expect {
            return None;
        }
        let mut pixels: Vec<Pixel> = Vec::new();
        let mut i: usize = 0;
        while i < n
            invariant
                n == bytes@.len(),
                n == 4 * ((width as int) * (height as int)),
                i == 4 * pixels@.len(),
                i <= n,
                forall|k: int|
                    0 <= k < pixels@.len() ==> pixels@[k] == (Pixel {
                        r: bytes@[4 * k],
                        g: bytes@[4 * k + 1],
                        b: bytes@[4 * k + 2],
                        a: bytes@[4 * k + 3],
                    }),
            decreases n - i,
        {
            let p = Pixel { r: bytes[i], g: bytes[i + 1], b: bytes[i + 2], a: bytes[i + 3] };
            pixels.push(p);
            i = i + 4;
        }
        Some(Raster { width, height, pixels })
    }

    /// The raster's pixels as RGBA bytes, row-major, four bytes per pixel in
    /// channel order red, green, blue, alpha — the layout that PNG encoders
    /// take.
    pub fn to_rgba(&self) -> (r: Vec<u8>)
        requires
            self.wf(),
            4 * self.pixels@.len() <= usize::MAX,
        ensures
            r@.len() == 4 * self.pixels@.len(),
            forall|k: int|
                0 <= k < self.pixels@.len() ==> r@[4 * k] == self.pixels@[k].r && r@[4 * k + 1]
                    == self.pixels@[k].g && r@[4 * k + 2] == self.pixels@[k].b && r@[4 * k + 3]
                    == self.pixels@[k].a,
    {
        let n = self.pixels.len();
        let mut r: Vec<u8> = Vec::new();
        let mut k: usize = 0;
        while k < n
            invariant
                n == self.pixels@.len(),
                4 * n <= usize::MAX,
                k <= n,
                r@.len() == 4 * k,
                forall|j: int|
                    0 <= j < k ==> r@[4 * j] == self.pixels@[j].r && r@[4 * j + 1]
                        == self.pixels@[j].g && r@[4 * j + 2] == self.pixels@[j].b && r@[4 * j + 3]
                        == self.pixels@[j].a,
            decreases n - k,
        {
            let p = self.pixels[k];
            r.push(p.r);
            r.push(p.g);
            r.push(p.b);
            r.push(p.a);
            k = k + 1;
        }
        r
    }
}

} // verus!
