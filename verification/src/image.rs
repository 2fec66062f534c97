//! An owned RGBA image buffer.
//!
//! Pixels are stored row-major, four bytes per pixel in `(r, g, b, a)`
//! order. The view of an image is its grid of pixels: a sequence of rows,
//! each row a sequence of `(u8, u8, u8, u8)` channel tuples.

use vstd::prelude::*;

verus! {

/// Largest width or height an `Image` may have.
pub const MAX_IMAGE_DIM: u32 = 16_384;

/// One RGBA pixel as `(red, green, blue, alpha)` channel values.
pub type Pixel = (u8, u8, u8, u8);

/// The rows of an image: each row is a sequence of pixels.
pub type PixelGrid = Seq<Seq<Pixel>>;

/// Grid shape: `h` rows of `w` pixels each.
pub open spec fn image_wf(v: PixelGrid, h: int, w: int) -> bool {
    &&& v.len() == h
    &&& forall|r: int| 0 <= r < v.len() ==> (#[trigger] v[r]).len() == w
}

/// Alpha channel of the pixel at `(r, c)`.
pub open spec fn alpha_at(v: PixelGrid, r: int, c: int) -> u8 {
    v[r][c].3
}

proof fn lemma_pix_bound(h: int, w: int, r: int, c: int)
    by (nonlinear_arith)
    requires
        0 <= r < h,
        0 <= c < w,
        h <= 16_384,
        w <= 16_384,
    ensures
        0 <= 4 * (r * w + c),
        4 * (r * w + c) + 3 < 4 * (h * w),
        4 * (h * w) <= 0x4000_0000,
        4 * (h * w) == 4 * h * w,
{
}

proof fn lemma_pix_inj(w: int, i: int, j: int, r: int, c: int, k1: int, k2: int)
    by (nonlinear_arith)
    requires
        0 <= j < w,
        0 <= c < w,
        0 <= i,
        0 <= r,
        0 <= k1 < 4,
        0 <= k2 < 4,
        !(i == r && j == c),
    ensures
        4 * (i * w + j) + k1 != 4 * (r * w + c) + k2,
{
}

/// An owned RGBA image of fixed dimensions.
pub struct Image {
    width: u32,
    height: u32,
    data: Vec<u8>,
}

impl View for Image {
    type V = PixelGrid;

    closed spec fn view(&self) -> PixelGrid {
        Seq::new(
            self.height as nat,
            |r: int|
                Seq::new(
                    self.width as nat,
                    |c: int|
                        (
                            self.data@[4 * (r * (self.width as int) + c)],
                            self.data@[4 * (r * (self.width as int) + c) + 1],
                            self.data@[4 * (r * (self.width as int) + c) + 2],
                            self.data@[4 * (r * (self.width as int) + c) + 3],
                        ),
                ),
        )
    }
}

impl Image {
    pub closed spec fn spec_width(&self) -> u32 {
        self.width
    }

    pub closed spec fn spec_height(&self) -> u32 {
        self.height
    }

    pub closed spec fn wf(&self) -> bool {
        &&& self.data@.len() == 4 * (self.height as int) * (self.width as int)
        &&& self.height <= MAX_IMAGE_DIM
        &&& self.width <= MAX_IMAGE_DIM
    }

    /// A well-formed image's dimensions respect `MAX_IMAGE_DIM`.
    pub proof fn lemma_wf_dims(&self)
        requires
            self.wf(),
        ensures
            self.spec_height() <= MAX_IMAGE_DIM,
            self.spec_width() <= MAX_IMAGE_DIM,
    {
    }

    pub broadcast proof fn lemma_view_shape(&self)
        ensures
            #[trigger] self@.len() == self.spec_height(),
            image_wf(self@, self.spec_height() as int, self.spec_width() as int),
    {
    }

    /// Creates a fully transparent (all-zero) image.
    pub fn new(height: u32, width: u32) -> (im: Image)
        requires
            height <= MAX_IMAGE_DIM,
            width <= MAX_IMAGE_DIM,
        ensures
            im.wf(),
            im.spec_height() == height,
            im.spec_width() == width,
            image_wf(im@, height as int, width as int),
            forall|r: int, c: int|
                0 <= r < height && 0 <= c < width ==> #[trigger] im@[r][c] == (
                    0u8,
                    0u8,
                    0u8,
                    0u8,
                ),
    {
        proof {
            assert(4 * ((height as int) * (width as int)) <= 0x4000_0000 && 4 * ((height as int)
                * (width as int)) == 4 * (height as int) * (width as int) && (height as int)
                * (width as int) >= 0) by (nonlinear_arith)
                requires
                    height <= 16_384,
                    width <= 16_384,
            ;
        }
        let n: usize = 4 * (height as usize) * (width as usize);
        let mut data: Vec<u8> = Vec::new();
        let mut k: usize = 0;
        while k < n
            invariant
                data@.len() == k,
                k <= n,
                forall|t: int| 0 <= t < k ==> #[trigger] data@[t] == 0u8,
            decreases n - k,
        {
            data.push(0u8);
            k = k + 1;
        }
        let im = Image { width, height, data };
        proof {
            assert forall|r: int, c: int|
                0 <= r < height && 0 <= c < width implies #[trigger] im@[r][c] == (
                0u8,
                0u8,
                0u8,
                0u8,
            ) by {
                lemma_pix_bound(height as int, width as int, r, c);
            }
        }
        im
    }

    /// Wraps a raw byte buffer (4 bytes per pixel, row-major RGBA) as an
    /// image; fails when the length does not match the dimensions or a
    /// dimension exceeds `MAX_IMAGE_DIM`.
    pub fn from_raw(height: u32, width: u32, data: Vec<u8>) -> (r: Option<Image>)
        ensures
            match r {
                Some(im) => {
                    &&& im.wf()
                    &&& im.spec_height() == height
                    &&& im.spec_width() == width
                    &&& height <= MAX_IMAGE_DIM
                    &&& width <= MAX_IMAGE_DIM
                    &&& data@.len() == 4 * (height as int) * (width as int)
                    &&& forall|rr: int, c: int|
                        0 <= rr < height && 0 <= c < width ==> #[trigger] im@[rr][c] == (
                            data@[4 * (rr * (width as int) + c)],
                            data@[4 * (rr * (width as int) + c) + 1],
                            data@[4 * (rr * (width as int) + c) + 2],
                            data@[4 * (rr * (width as int) + c) + 3],
                        )
                },
                None => height > MAX_IMAGE_DIM || width > MAX_IMAGE_DIM || data@.len() != 4 * (
                height as int) * (width as int),
            },
    {
        if height > MAX_IMAGE_DIM || width > MAX_IMAGE_DIM {
            return None;
        }
        proof {
            assert(4 * ((height as int) * (width as int)) <= 0x4000_0000 && 4 * ((height as int)
                * (width as int)) == 4 * (height as int) * (width as int) && (height as int)
                * (width as int) >= 0) by (nonlinear_arith)
                requires
                    height <= 16_384,
                    width <= 16_384,
            ;
        }
        let n: usize = 4 * (height as usize) * (width as usize);
        if data.len() != n {
            return None;
        }
        Some(Image { width, height, data })
    }

    /// Height in pixels.
    pub fn height(&self) -> (r: u32)
        ensures
            r == self.spec_height(),
    {
        self.height
    }

    /// Width in pixels.
    pub fn width(&self) -> (r: u32)
        ensures
            r == self.spec_width(),
    {
        self.width
    }

    /// The raw byte buffer: 4 bytes per pixel, row-major RGBA.
    pub fn data(&self) -> (r: &Vec<u8>)
        requires
            self.wf(),
        ensures
            r@.len() == 4 * (self.spec_height() as int) * (self.spec_width() as int),
            forall|rr: int, c: int|
                0 <= rr < self.spec_height() && 0 <= c < self.spec_width()
                    ==> #[trigger] self@[rr][c] == (
                    r@[4 * (rr * (self.spec_width() as int) + c)],
                    r@[4 * (rr * (self.spec_width() as int) + c) + 1],
                    r@[4 * (rr * (self.spec_width() as int) + c) + 2],
                    r@[4 * (rr * (self.spec_width() as int) + c) + 3],
                ),
    {
        proof {
            assert forall|rr: int, c: int|
                0 <= rr < self.spec_height() && 0 <= c < self.spec_width()
                    implies #[trigger] self@[rr][c] == (
                self.data@[4 * (rr * (self.spec_width() as int) + c)],
                self.data@[4 * (rr * (self.spec_width() as int) + c) + 1],
                self.data@[4 * (rr * (self.spec_width() as int) + c) + 2],
                self.data@[4 * (rr * (self.spec_width() as int) + c) + 3],
            ) by {
                lemma_pix_bound(
                    self.spec_height() as int,
                    self.spec_width() as int,
                    rr,
                    c,
                );
            }
        }
        &self.data
    }

    fn pix_base(&self, row: u32, col: u32) -> (i: usize)
        requires
            self.wf(),
            row < self.spec_height(),
            col < self.spec_width(),
        ensures
            i == 4 * (row as int * self.spec_width() as int + col as int),
            i + 3 < self.data@.len(),
    {
        proof {
            lemma_pix_bound(self.height as int, self.width as int, row as int, col as int);
            assert(4 * ((self.height as int) * (self.width as int)) == self.data@.len())
                by (nonlinear_arith)
                requires
                    self.data@.len() == 4 * (self.height as int) * (self.width as int),
            ;
        }
        4 * ((row as usize) * (self.width as usize) + (col as usize))
    }


    /// A fresh image with the same dimensions and pixels.
    pub fn duplicate(&self) -> (r: Image)
        requires
            self.wf(),
        ensures
            r.wf(),
            r.spec_height() == self.spec_height(),
            r.spec_width() == self.spec_width(),
            r@ == self@,
    {
        let src = self.data();
        let n = src.len();
        let mut data: Vec<u8> = Vec::new();
        let mut k: usize = 0;
        while k < n
            invariant
                k <= n,
                n == src@.len(),
                data@.len() == k,
                forall|t: int| 0 <= t < k ==> #[trigger] data@[t] == src@[t],
            decreases n - k,
        {
            data.push(src[k]);
            k = k + 1;
        }
        let r = match Image::from_raw(self.height(), self.width(), data) {
            Some(r) => r,
            None => {
                proof {
                    assert(false);
                }
                Image::new(0, 0)
            },
        };
        proof {
            let h = self.spec_height() as int;
            let w = self.spec_width() as int;
            assert forall|rr: int| 0 <= rr < h implies r@[rr] =~= self@[rr] by {
                assert forall|cc: int| 0 <= cc < w implies r@[rr][cc] == self@[rr][cc] by {
                    lemma_pix_bound(h, w, rr, cc);
                }
            }
            assert(r@ =~~= self@);
        }
        r
    }

    /// The pixel at `(row, col)`.
    pub fn get_pixel(&self, row: u32, col: u32) -> (p: Pixel)
        requires
            self.wf(),
            row < self.spec_height(),
            col < self.spec_width(),
        ensures
            p == self@[row as int][col as int],
    {
        let base = self.pix_base(row, col);
        (self.data[base], self.data[base + 1], self.data[base + 2], self.data[base + 3])
    }

    /// Replaces the pixel at `(row, col)`.
    pub fn set_pixel(&mut self, row: u32, col: u32, p: Pixel)
        requires
            old(self).wf(),
            row < old(self).spec_height(),
            col < old(self).spec_width(),
        ensures
            final(self).wf(),
            final(self).spec_height() == old(self).spec_height(),
            final(self).spec_width() == old(self).spec_width(),
            final(self)@ == old(self)@.update(
                row as int,
                old(self)@[row as int].update(col as int, p),
            ),
    {
        let base = self.pix_base(row, col);
        self.data.set(base, p.0);
        self.data.set(base + 1, p.1);
        self.data.set(base + 2, p.2);
        self.data.set(base + 3, p.3);
        proof {
            let w = self.width as int;
            let h = self.height as int;
            let target = old(self)@.update(
                row as int,
                old(self)@[row as int].update(col as int, p),
            );
            assert forall|a: int| 0 <= a < h implies self@[a] =~= target[a] by {
                assert forall|b: int| 0 <= b < w implies self@[a][b] == target[a][b] by {
                    lemma_pix_bound(h, w, a, b);
                    if !(a == row as int && b == col as int) {
                        lemma_pix_inj(w, a, b, row as int, col as int, 0, 0);
                        lemma_pix_inj(w, a, b, row as int, col as int, 0, 1);
                        lemma_pix_inj(w, a, b, row as int, col as int, 0, 2);
                        lemma_pix_inj(w, a, b, row as int, col as int, 0, 3);
                        lemma_pix_inj(w, a, b, row as int, col as int, 1, 0);
                        lemma_pix_inj(w, a, b, row as int, col as int, 1, 1);
                        lemma_pix_inj(w, a, b, row as int, col as int, 1, 2);
                        lemma_pix_inj(w, a, b, row as int, col as int, 1, 3);
                        lemma_pix_inj(w, a, b, row as int, col as int, 2, 0);
                        lemma_pix_inj(w, a, b, row as int, col as int, 2, 1);
                        lemma_pix_inj(w, a, b, row as int, col as int, 2, 2);
                        lemma_pix_inj(w, a, b, row as int, col as int, 2, 3);
                        lemma_pix_inj(w, a, b, row as int, col as int, 3, 0);
                        lemma_pix_inj(w, a, b, row as int, col as int, 3, 1);
                        lemma_pix_inj(w, a, b, row as int, col as int, 3, 2);
                        lemma_pix_inj(w, a, b, row as int, col as int, 3, 3);
                    }
                }
            }
            assert(self@ =~~= target);
        }
    }
}

} // verus!
