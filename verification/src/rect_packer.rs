//! Rectangle bin packing into a minimum-area power-of-two bin.
//!
//! `Pack::pack` places a list of rectangles into the smallest
//! power-of-two-bounded bin it can find, trying every power-of-two bin
//! width up to the configured maximum and keeping the candidate with the
//! smallest tight power-of-two footprint. Placement inside a candidate
//! bin is a greedy row-major first-fit scan over an occupancy grid.

use vstd::prelude::*;
use vstd::arithmetic::power2::{pow2, lemma_pow2_strictly_increases, lemma_pow2_unfold, lemma_pow2_pos, lemma2_to64};

verus! {

/// Largest grid/bin dimension the packer accepts.
pub const MAX_MAX_DIM: u32 = 10_000;

/// A placed rectangle: `pos` is the upper-left `(row, col)` corner and
/// `dims` the `(height, width)` extent, all in pixels.
#[derive(Debug, Copy, Clone, PartialEq, Eq)]
pub struct Rect {
    pub pos: (u32, u32),
    pub dims: (u32, u32),
}

/// Least `k` with `pow2(k) >= v`.
pub open spec fn log_ceil(v: int) -> nat
    decreases v,
{
    if v <= 1 {
        0
    } else {
        (1 + log_ceil((v + 1) / 2)) as nat
    }
}

/// Smallest power of two that is `>= v` (and always `>= 1`).
pub open spec fn ceil_pow2(v: int) -> int {
    pow2(log_ceil(v)) as int
}

/// `v` is an exact power of two. Zero is not a power of two.
pub open spec fn is_pow2(v: int) -> bool {
    ceil_pow2(v) == v
}

pub proof fn lemma_log_ceil(v: int)
    ensures
        pow2(log_ceil(v)) >= v,
        forall|k: nat| k < log_ceil(v) ==> pow2(k) < v,
    decreases v,
{
    if v <= 1 {
        lemma_pow2_pos(0);
        assert(pow2(0) == 1) by { lemma2_to64(); };
    } else {
        let u = (v + 1) / 2;
        lemma_log_ceil(u);
        let ku = log_ceil(u);
        lemma_pow2_unfold((ku + 1) as nat);
        assert(pow2((ku + 1) as nat) == 2 * pow2(ku));
        assert(2 * pow2(ku) >= 2 * u);
        assert(2 * u >= v);
        assert forall|k: nat| k < log_ceil(v) implies pow2(k) < v by {
            if k == 0 {
                assert(pow2(0) == 1) by { lemma2_to64(); };
            } else {
                assert(((k - 1) as nat) < ku);
                assert(pow2((k - 1) as nat) < u);
                lemma_pow2_unfold(k);
                assert(pow2(k) == 2 * pow2((k - 1) as nat));
                assert(pow2(k) <= 2 * (u - 1));
                assert(2 * u <= v + 1);
            }
        };
    }
}

/// `ceil_pow2` is monotone.
pub proof fn lemma_ceil_pow2_mono(a: int, b: int)
    requires
        a <= b,
    ensures
        ceil_pow2(a) <= ceil_pow2(b),
{
    lemma_log_ceil(a);
    lemma_log_ceil(b);
    let ka = log_ceil(a);
    let kb = log_ceil(b);
    if ka > kb {
        assert(pow2(kb) < a);
        assert(pow2(kb) >= b);
    }
    if ka < kb {
        lemma_pow2_strictly_increases(ka, kb);
    }
}

/// A power of two is its own `ceil_pow2`.
pub proof fn lemma_ceil_pow2_fixpoint(k: nat)
    ensures
        ceil_pow2(pow2(k) as int) == pow2(k),
        is_pow2(pow2(k) as int),
{
    let v = pow2(k) as int;
    lemma_log_ceil(v);
    let kv = log_ceil(v);
    if kv < k {
        lemma_pow2_strictly_increases(kv, k);
    }
    if kv > k {
        assert(pow2(k) < v);
    }
    assert(kv == k);
}

/// Computes `log_ceil(value)`: the least `k` with `2^k >= value`.
pub fn log_ceil_pow_2(value: u32) -> (r: u32)
    requires
        value <= 0x8000_0000u32,
    ensures
        r as nat == log_ceil(value as int),
        r <= 31,
        pow2(r as nat) >= value,
{
    proof { lemma2_to64(); }
    let mut p: u32 = 1;
    let mut k: u32 = 0;
    while p < value
        invariant
            value <= 0x8000_0000u32,
            p as nat == pow2(k as nat),
            k <= 31,
            forall|j: nat| j < k ==> pow2(j) < value,
        decreases 32 - k,
    {
        proof {
            lemma2_to64();
            if k as nat >= 31 {
                if k as nat > 31 {
                    lemma_pow2_strictly_increases(31, k as nat);
                }
                assert(p >= 0x8000_0000u32);
            }
            lemma_pow2_unfold((k + 1) as nat);
            if (k + 1) as nat > 31 {
                lemma_pow2_strictly_increases(31, (k + 1) as nat);
            }
        }
        p = p * 2;
        k = k + 1;
    }
    proof {
        lemma_log_ceil(value as int);
        let kv = log_ceil(value as int);
        if (k as nat) < kv {
            assert(pow2(k as nat) < value);
        }
        if (k as nat) > kv {
            assert(pow2(kv) < value);
            assert(pow2(kv) >= value);
        }
    }
    k
}

/// Computes `ceil_pow2(value)`: the smallest power of two `>= value`.
pub fn ceil_pow_2(value: u32) -> (r: u32)
    requires
        value <= 0x8000_0000u32,
    ensures
        r as int == ceil_pow2(value as int),
        r >= value,
        is_pow2(r as int),
{
    proof { lemma2_to64(); }
    let mut p: u32 = 1;
    let mut k: u32 = 0;
    while p < value
        invariant
            value <= 0x8000_0000u32,
            p as nat == pow2(k as nat),
            k <= 31,
            forall|j: nat| j < k ==> pow2(j) < value,
        decreases 32 - k,
    {
        proof {
            lemma2_to64();
            if k as nat >= 31 {
                if k as nat > 31 {
                    lemma_pow2_strictly_increases(31, k as nat);
                }
                assert(p >= 0x8000_0000u32);
            }
            lemma_pow2_unfold((k + 1) as nat);
            if (k + 1) as nat > 31 {
                lemma_pow2_strictly_increases(31, (k + 1) as nat);
            }
        }
        p = p * 2;
        k = k + 1;
    }
    proof {
        lemma_log_ceil(value as int);
        let kv = log_ceil(value as int);
        if (k as nat) < kv {
            assert(pow2(k as nat) < value);
        }
        if (k as nat) > kv {
            assert(pow2(kv) < value);
            assert(pow2(kv) >= value);
        }
        lemma_ceil_pow2_fixpoint(k as nat);
    }
    p
}

/// Decides whether `value` is an exact power of two.
pub fn is_pow_2(value: u32) -> (r: bool)
    requires
        value <= 0x8000_0000u32,
    ensures
        r == is_pow2(value as int),
{
    let c = ceil_pow_2(value);
    c == value
}

/// Grid shape: `h` rows, each of length `w`. A cell holding `true` is used.
pub open spec fn grid_wf(g: Seq<Seq<bool>>, h: int, w: int) -> bool {
    &&& g.len() == h
    &&& forall|i: int| 0 <= i < g.len() ==> (#[trigger] g[i]).len() == w
}

/// The `height x width` block of cells anchored at `(r, c)` is entirely free.
pub open spec fn rect_free(g: Seq<Seq<bool>>, h: int, w: int, r: int, c: int) -> bool {
    forall|i: int, j: int| r <= i < r + h && c <= j < c + w ==> !(#[trigger] g[i][j])
}

/// The grid with the `h x w` block anchored at `(r, c)` marked used.
pub open spec fn grid_fill(g: Seq<Seq<bool>>, h: int, w: int, r: int, c: int) -> Seq<Seq<bool>> {
    Seq::new(
        g.len(),
        |i: int|
            if r <= i < r + h {
                Seq::new(g[i].len(), |j: int| c <= j < c + w || g[i][j])
            } else {
                g[i]
            },
    )
}

/// Row-major first-fit: the first anchor position at or after `(r, c)`
/// (scanning columns within a row, then rows) where an `h x w` block is
/// entirely free. `gw` is the grid width.
pub open spec fn first_fit_from(
    g: Seq<Seq<bool>>,
    gw: int,
    h: int,
    w: int,
    r: int,
    c: int,
) -> Option<(int, int)>
    decreases g.len() - r, gw - c,
{
    if h <= 0 || w <= 0 || r < 0 || c < 0 {
        None
    } else if r + h > g.len() {
        None
    } else if c + w > gw {
        first_fit_from(g, gw, h, w, r + 1, 0)
    } else if rect_free(g, h, w, r, c) {
        Some((r, c))
    } else {
        first_fit_from(g, gw, h, w, r, c + 1)
    }
}

proof fn lemma_flat_index_bound(h: int, w: int, i: int, j: int)
    by (nonlinear_arith)
    requires
        0 <= i < h,
        0 <= j < w,
    ensures
        0 <= i * w + j < h * w,
{
}

proof fn lemma_idx_small(h: int, w: int, i: int, j: int)
    by (nonlinear_arith)
    requires
        0 <= i < h,
        0 <= j < w,
        h <= 10_000,
        w <= 10_000,
    ensures
        0 <= i * w + j,
        i * w + j < 100_000_000,
{
}

proof fn lemma_dims_small(h: int, w: int)
    by (nonlinear_arith)
    requires
        0 <= h <= 10_000,
        0 <= w <= 10_000,
    ensures
        0 <= h * w <= 100_000_000,
{
}

proof fn lemma_flat_index_inj(w: int, i: int, j: int, r: int, c: int)
    by (nonlinear_arith)
    requires
        0 <= j < w,
        0 <= c < w,
        0 <= i,
        0 <= r,
        !(i == r && j == c),
    ensures
        i * w + j != r * w + c,
{
}

/// Occupancy grid of free/used cells, used to place rectangles inside a
/// candidate bin by a deterministic row-major first-fit scan.
pub struct BitGrid {
    bits: Vec<bool>,
    height: u32,
    width: u32,
}

impl View for BitGrid {
    type V = Seq<Seq<bool>>;

    closed spec fn view(&self) -> Seq<Seq<bool>> {
        Seq::new(
            self.height as nat,
            |i: int| Seq::new(self.width as nat, |j: int| self.bits@[i * (self.width as int) + j]),
        )
    }
}

impl BitGrid {
    pub closed spec fn spec_height(&self) -> u32 {
        self.height
    }

    pub closed spec fn spec_width(&self) -> u32 {
        self.width
    }

    pub closed spec fn wf(&self) -> bool {
        &&& self.bits@.len() == (self.height as int) * (self.width as int)
        &&& 1 <= self.height <= MAX_MAX_DIM
        &&& 1 <= self.width <= MAX_MAX_DIM
    }

    /// Creates a grid with every cell free.
    pub fn new(height: u32, width: u32) -> (g: BitGrid)
        requires
            1 <= height <= MAX_MAX_DIM,
            1 <= width <= MAX_MAX_DIM,
        ensures
            g.wf(),
            g.spec_height() == height,
            g.spec_width() == width,
            grid_wf(g@, height as int, width as int),
            forall|i: int, j: int|
                0 <= i < height && 0 <= j < width ==> !(#[trigger] g@[i][j]),
    {
        proof {
            lemma_dims_small(height as int, width as int);
        }
        let n: usize = (height as usize) * (width as usize);
        let mut bits: Vec<bool> = Vec::new();
        let mut k: usize = 0;
        while k < n
            invariant
                bits@.len() == k,
                k <= n,
                forall|t: int| 0 <= t < k ==> !(#[trigger] bits@[t]),
            decreases n - k,
        {
            bits.push(false);
            k = k + 1;
        }
        let g = BitGrid { bits, height, width };
        proof {
            assert forall|i: int, j: int|
                0 <= i < height && 0 <= j < width implies !(#[trigger] g@[i][j]) by {
                lemma_flat_index_bound(height as int, width as int, i, j);
            };
        }
        g
    }

    fn idx(&self, row: u32, col: u32) -> (i: usize)
        requires
            self.wf(),
            row < self.spec_height(),
            col < self.spec_width(),
        ensures
            i == row as int * self.spec_width() as int + col as int,
    {
        proof {
            lemma_flat_index_bound(
                self.height as int,
                self.width as int,
                row as int,
                col as int,
            );
            lemma_idx_small(self.height as int, self.width as int, row as int, col as int);
        }
        (row * self.width + col) as usize
    }

    fn is_set(&self, row: u32, col: u32) -> (b: bool)
        requires
            self.wf(),
            row < self.spec_height(),
            col < self.spec_width(),
        ensures
            b == self@[row as int][col as int],
    {
        proof {
            lemma_flat_index_bound(
                self.height as int,
                self.width as int,
                row as int,
                col as int,
            );
        }
        let i = self.idx(row, col);
        self.bits[i]
    }

    fn set(&mut self, row: u32, col: u32)
        requires
            old(self).wf(),
            row < old(self).spec_height(),
            col < old(self).spec_width(),
        ensures
            final(self).wf(),
            final(self).spec_height() == old(self).spec_height(),
            final(self).spec_width() == old(self).spec_width(),
            final(self)@ == old(self)@.update(
                row as int,
                old(self)@[row as int].update(col as int, true),
            ),
    {
        proof {
            lemma_flat_index_bound(
                self.height as int,
                self.width as int,
                row as int,
                col as int,
            );
        }
        let i = self.idx(row, col);
        self.bits.set(i, true);
        proof {
            let w = self.width as int;
            let target = old(self)@.update(
                row as int,
                old(self)@[row as int].update(col as int, true),
            );
            assert forall|a: int| 0 <= a < self.height implies self@[a] =~= target[a] by {
                assert forall|b: int| 0 <= b < w implies self@[a][b] == target[a][b] by {
                    lemma_flat_index_bound(self.height as int, w, a, b);
                    if !(a == row as int && b == col as int) {
                        lemma_flat_index_inj(w, a, b, row as int, col as int);
                    }
                };
            };
            assert(self@ =~~= target);
        }
    }

    fn fill_rect_at(&mut self, height: u32, width: u32, row: u32, col: u32) -> (b: bool)
        requires
            old(self).wf(),
            1 <= height,
            1 <= width,
            row + height <= old(self).spec_height(),
            col + width <= old(self).spec_width(),
        ensures
            final(self).wf(),
            final(self).spec_height() == old(self).spec_height(),
            final(self).spec_width() == old(self).spec_width(),
            b == rect_free(old(self)@, height as int, width as int, row as int, col as int),
            b ==> final(self)@ == grid_fill(
                old(self)@,
                height as int,
                width as int,
                row as int,
                col as int,
            ),
            !b ==> final(self)@ == old(self)@,
    {
        let ghost g0 = old(self)@;
        let mut i = row;
        while i < row + height
            invariant
                row <= i <= row + height,
                self.wf(),
                self.spec_height() == old(self).spec_height(),
                self.spec_width() == old(self).spec_width(),
                self@ == g0,
                row + height <= self.spec_height(),
                col + width <= self.spec_width(),
                1 <= height,
                1 <= width,
                forall|a: int, b: int|
                    row <= a < i && col <= b < col + width ==> !(#[trigger] g0[a][b]),
            decreases row + height - i,
        {
            let mut j = col;
            while j < col + width
                invariant
                    col <= j <= col + width,
                    row <= i < row + height,
                    self.wf(),
                    self.spec_height() == old(self).spec_height(),
                    self.spec_width() == old(self).spec_width(),
                    self@ == g0,
                    row + height <= self.spec_height(),
                    col + width <= self.spec_width(),
                    1 <= height,
                    1 <= width,
                    forall|a: int, b: int|
                        row <= a < i && col <= b < col + width ==> !(#[trigger] g0[a][b]),
                    forall|b: int| col <= b < j ==> !(#[trigger] g0[i as int][b]),
                decreases col + width - j,
            {
                if self.is_set(i, j) {
                    return false;
                }
                j = j + 1;
            }
            i = i + 1;
        }
        assert(rect_free(g0, height as int, width as int, row as int, col as int));
        let mut i = row;
        while i < row + height
            invariant
                row <= i <= row + height,
                self.wf(),
                self.spec_height() == old(self).spec_height(),
                self.spec_width() == old(self).spec_width(),
                row + height <= self.spec_height(),
                col + width <= self.spec_width(),
                1 <= height,
                1 <= width,
                grid_wf(g0, self.spec_height() as int, self.spec_width() as int),
                self@.len() == g0.len(),
                forall|a: int| 0 <= a < g0.len() ==> (#[trigger] self@[a]).len() == g0[a].len(),
                forall|a: int, b: int|
                    0 <= a < g0.len() && 0 <= b < g0[a].len() ==> (#[trigger] self@[a][b])
                        == ((row <= a < i && col <= b < col + width) || g0[a][b]),
            decreases row + height - i,
        {
            let mut j = col;
            while j < col + width
                invariant
                    col <= j <= col + width,
                    row <= i < row + height,
                    self.wf(),
                    self.spec_height() == old(self).spec_height(),
                    self.spec_width() == old(self).spec_width(),
                    row + height <= self.spec_height(),
                    col + width <= self.spec_width(),
                    1 <= height,
                    1 <= width,
                    grid_wf(g0, self.spec_height() as int, self.spec_width() as int),
                    self@.len() == g0.len(),
                    forall|a: int| 0 <= a < g0.len() ==> (#[trigger] self@[a]).len() == g0[a].len(),
                    forall|a: int, b: int|
                        0 <= a < g0.len() && 0 <= b < g0[a].len() ==> (#[trigger] self@[a][b])
                            == ((row <= a < i && col <= b < col + width) || (a == i && col <= b
                            < j) || g0[a][b]),
                decreases col + width - j,
            {
                self.set(i, j);
                j = j + 1;
            }
            i = i + 1;
        }
        proof {
            let gf = grid_fill(g0, height as int, width as int, row as int, col as int);
            assert forall|a: int| 0 <= a < g0.len() implies self@[a] =~= gf[a] by {};
            assert(self@ =~~= gf);
        }
        true
    }

    /// Scans anchor positions in row-major order and marks the first
    /// position where a `height x width` block is entirely free; returns
    /// `None` (grid unchanged) when no position fits.
    #[verifier::loop_isolation(false)]
    pub fn fill_rect(&mut self, height: u32, width: u32) -> (r: Option<(u32, u32)>)
        requires
            old(self).wf(),
            1 <= height <= old(self).spec_height(),
            1 <= width <= old(self).spec_width(),
        ensures
            final(self).wf(),
            final(self).spec_height() == old(self).spec_height(),
            final(self).spec_width() == old(self).spec_width(),
            match r {
                Some(pos) => {
                    &&& first_fit_from(
                        old(self)@,
                        old(self).spec_width() as int,
                        height as int,
                        width as int,
                        0,
                        0,
                    ) == Some((pos.0 as int, pos.1 as int))
                    &&& pos.0 + height <= old(self).spec_height()
                    &&& pos.1 + width <= old(self).spec_width()
                    &&& rect_free(old(self)@, height as int, width as int, pos.0 as int, pos.1 as int)
                    &&& final(self)@ == grid_fill(
                        old(self)@,
                        height as int,
                        width as int,
                        pos.0 as int,
                        pos.1 as int,
                    )
                },
                None => {
                    &&& first_fit_from(
                        old(self)@,
                        old(self).spec_width() as int,
                        height as int,
                        width as int,
                        0,
                        0,
                    ) is None
                    &&& final(self)@ == old(self)@
                },
            },
    {
        let ghost g0 = old(self)@;
        let ghost gw = old(self).spec_width() as int;
        let ghost h = height as int;
        let ghost w = width as int;
        proof {
            assert(grid_wf(g0, self.spec_height() as int, gw));
        }
        let rmax = self.height - height + 1;
        let cmax = self.width - width + 1;
        let mut row: u32 = 0;
        while row < rmax
            invariant
                row <= rmax,
                rmax == self.spec_height() - height + 1,
                cmax == self.spec_width() - width + 1,
                self.wf(),
                self.spec_height() == old(self).spec_height(),
                self.spec_width() == old(self).spec_width(),
                self@ == g0,
                gw == self.spec_width() as int,
                h == height as int,
                w == width as int,
                1 <= height <= self.spec_height(),
                1 <= width <= self.spec_width(),
                grid_wf(g0, self.spec_height() as int, gw),
                first_fit_from(g0, gw, h, w, row as int, 0) == first_fit_from(g0, gw, h, w, 0, 0),
            decreases rmax - row,
        {
            let mut col: u32 = 0;
            while col < cmax
                invariant
                    col <= cmax,
                    row < rmax,
                    rmax == self.spec_height() - height + 1,
                    cmax == self.spec_width() - width + 1,
                    self.wf(),
                    self.spec_height() == old(self).spec_height(),
                    self.spec_width() == old(self).spec_width(),
                    self@ == g0,
                    gw == self.spec_width() as int,
                    h == height as int,
                    w == width as int,
                    1 <= height <= self.spec_height(),
                    1 <= width <= self.spec_width(),
                    grid_wf(g0, self.spec_height() as int, gw),
                    first_fit_from(g0, gw, h, w, row as int, col as int) == first_fit_from(
                        g0,
                        gw,
                        h,
                        w,
                        0,
                        0,
                    ),
                decreases cmax - col,
            {
                if self.fill_rect_at(height, width, row, col) {
                    proof {
                        assert(first_fit_from(g0, gw, h, w, row as int, col as int) == Some((
                            row as int,
                            col as int,
                        )));
                    }
                    return Some((row, col));
                }
                proof {
                    assert(first_fit_from(g0, gw, h, w, row as int, col as int)
                        == first_fit_from(g0, gw, h, w, row as int, col as int + 1));
                }
                col = col + 1;
            }
            proof {
                assert(col as int + w > gw);
                assert(first_fit_from(g0, gw, h, w, row as int, col as int) == first_fit_from(
                    g0,
                    gw,
                    h,
                    w,
                    row as int + 1,
                    0,
                ));
            }
            row = row + 1;
        }
        proof {
            assert(row as int + h > g0.len());
            assert(first_fit_from(g0, gw, h, w, row as int, 0) is None);
        }
        None
    }
}

// ---- placing a whole list of rectangles ----

/// `(i, j)` is a cell covered by rectangle `r`.
pub open spec fn in_rect(r: Rect, i: int, j: int) -> bool {
    &&& r.pos.0 <= i < r.pos.0 + r.dims.0
    &&& r.pos.1 <= j < r.pos.1 + r.dims.1
}

/// Two placed rectangles do not intersect.
pub open spec fn rects_disjoint(a: Rect, b: Rect) -> bool {
    ||| a.pos.0 + a.dims.0 <= b.pos.0
    ||| b.pos.0 + b.dims.0 <= a.pos.0
    ||| a.pos.1 + a.dims.1 <= b.pos.1
    ||| b.pos.1 + b.dims.1 <= a.pos.1
}

/// The rectangle lies inside an `h x w` bin.
pub open spec fn rect_in_bounds(r: Rect, h: int, w: int) -> bool {
    &&& r.pos.0 + r.dims.0 <= h
    &&& r.pos.1 + r.dims.1 <= w
}

/// Every cell covered by `r` is free in `g`.
pub open spec fn rect_cells_free(g: Seq<Seq<bool>>, r: Rect) -> bool {
    rect_free(g, r.dims.0 as int, r.dims.1 as int, r.pos.0 as int, r.pos.1 as int)
}

/// Every cell covered by `r` is used in `g`.
pub open spec fn rect_cells_used(g: Seq<Seq<bool>>, r: Rect) -> bool {
    forall|i: int, j: int| in_rect(r, i, j) ==> #[trigger] g[i][j]
}

/// An all-free grid of `h` rows and `w` columns.
pub open spec fn empty_grid(h: int, w: int) -> Seq<Seq<bool>> {
    Seq::new(h as nat, |i: int| Seq::new(w as nat, |j: int| false))
}

/// Greedy first-fit placement of every rectangle, in order, into grid `g`
/// of width `gw`: returns the placed rectangles and the resulting grid, or
/// `None` as soon as one rectangle does not fit.
pub open spec fn place_all(g: Seq<Seq<bool>>, gw: int, rects: Seq<(u32, u32)>) -> Option<
    (Seq<Rect>, Seq<Seq<bool>>),
>
    decreases rects.len(),
{
    if rects.len() == 0 {
        Some((Seq::empty(), g))
    } else {
        let h = rects[0].0 as int;
        let w = rects[0].1 as int;
        match first_fit_from(g, gw, h, w, 0, 0) {
            None => None,
            Some(pos) => {
                let rect = Rect { pos: (pos.0 as u32, pos.1 as u32), dims: rects[0] };
                let g2 = grid_fill(g, h, w, pos.0, pos.1);
                match place_all(g2, gw, rects.drop_first()) {
                    None => None,
                    Some(pr) => Some((seq![rect] + pr.0, pr.1)),
                }
            },
        }
    }
}

proof fn lemma_first_fit_props(g: Seq<Seq<bool>>, gh: int, gw: int, h: int, w: int, r: int, c: int)
    requires
        grid_wf(g, gh, gw),
        first_fit_from(g, gw, h, w, r, c) is Some,
    ensures
        ({
            let pos = first_fit_from(g, gw, h, w, r, c)->Some_0;
            &&& 0 <= pos.0
            &&& 0 <= pos.1
            &&& pos.0 + h <= gh
            &&& pos.1 + w <= gw
            &&& rect_free(g, h, w, pos.0, pos.1)
        }),
    decreases g.len() - r, gw - c,
{
    if h <= 0 || w <= 0 || r < 0 || c < 0 {
    } else if r + h > g.len() {
    } else if c + w > gw {
        lemma_first_fit_props(g, gh, gw, h, w, r + 1, 0);
    } else if rect_free(g, h, w, r, c) {
    } else {
        lemma_first_fit_props(g, gh, gw, h, w, r, c + 1);
    }
}

/// Two overlapping rectangles of positive dimensions share a cell.
proof fn lemma_overlap_common_cell(a: Rect, b: Rect)
    requires
        a.dims.0 >= 1,
        a.dims.1 >= 1,
        b.dims.0 >= 1,
        b.dims.1 >= 1,
        !rects_disjoint(a, b),
    ensures
        exists|i: int, j: int| in_rect(a, i, j) && #[trigger] in_rect(b, i, j),
{
    let i = if a.pos.0 >= b.pos.0 {
        a.pos.0 as int
    } else {
        b.pos.0 as int
    };
    let j = if a.pos.1 >= b.pos.1 {
        a.pos.1 as int
    } else {
        b.pos.1 as int
    };
    assert(in_rect(a, i, j) && in_rect(b, i, j));
}

/// What a successful `place_all` guarantees: one placed rectangle per
/// input with the same dimensions, all inside the bin, pairwise disjoint,
/// each placed on cells that were free, with those cells used afterwards.
pub proof fn lemma_place_all_props(
    g: Seq<Seq<bool>>,
    gh: int,
    gw: int,
    rects: Seq<(u32, u32)>,
    rs: Seq<Rect>,
    gf: Seq<Seq<bool>>,
)
    requires
        grid_wf(g, gh, gw),
        0 <= gh <= MAX_MAX_DIM,
        0 <= gw <= MAX_MAX_DIM,
        place_all(g, gw, rects) == Some((rs, gf)),
        forall|t: int|
            0 <= t < rects.len() ==> (#[trigger] rects[t]).0 >= 1 && rects[t].1 >= 1,
    ensures
        rs.len() == rects.len(),
        forall|t: int| 0 <= t < rs.len() ==> (#[trigger] rs[t]).dims == rects[t],
        forall|t: int| 0 <= t < rs.len() ==> rect_in_bounds(#[trigger] rs[t], gh, gw),
        forall|t: int| 0 <= t < rs.len() ==> rect_cells_free(g, #[trigger] rs[t]),
        forall|t: int| 0 <= t < rs.len() ==> rect_cells_used(gf, #[trigger] rs[t]),
        grid_wf(gf, gh, gw),
        forall|i: int, j: int|
            0 <= i < gh && 0 <= j < gw && #[trigger] g[i][j] ==> #[trigger] gf[i][j],
        forall|t: int, u: int|
            0 <= t < u < rs.len() ==> rects_disjoint(#[trigger] rs[t], #[trigger] rs[u]),
    decreases rects.len(),
{
    if rects.len() == 0 {
    } else {
        let h = rects[0].0 as int;
        let w = rects[0].1 as int;
        let pos = first_fit_from(g, gw, h, w, 0, 0)->Some_0;
        lemma_first_fit_props(g, gh, gw, h, w, 0, 0);
        let rect0 = Rect { pos: (pos.0 as u32, pos.1 as u32), dims: rects[0] };
        let g2 = grid_fill(g, h, w, pos.0, pos.1);
        assert(grid_wf(g2, gh, gw));
        let pr = place_all(g2, gw, rects.drop_first())->Some_0;
        lemma_place_all_props(g2, gh, gw, rects.drop_first(), pr.0, pr.1);
        assert(rs == seq![rect0] + pr.0);
        assert(rs[0] == rect0);
        assert(forall|t: int| 1 <= t < rs.len() ==> rs[t] == pr.0[t - 1]);
        // cells of rect0 are used in g2 and stay used
        assert forall|i: int, j: int| in_rect(rect0, i, j) implies #[trigger] g2[i][j] by {
            assert(0 <= i < g.len());
            assert(g[i].len() == gw);
        }
        assert(rect_cells_used(g2, rect0));
        assert forall|i: int, j: int| in_rect(rect0, i, j) implies #[trigger] gf[i][j] by {
            assert(g2[i][j]);
            assert(0 <= i < gh && 0 <= j < gw);
        }
        assert(rect_cells_used(gf, rect0));
        assert forall|i: int, j: int|
            0 <= i < gh && 0 <= j < gw && #[trigger] g[i][j] implies #[trigger] gf[i][j] by {
            assert(g[i].len() == gw);
            assert(g2[i][j]);
        }
        // a rectangle whose cells are free in g2 avoids rect0 and was free in g
        assert forall|t: int| 1 <= t < rs.len() implies rect_cells_free(g, #[trigger] rs[t]) by {
            assert(rect_cells_free(g2, rs[t]));
            assert forall|i: int, j: int|
                rs[t].pos.0 <= i < rs[t].pos.0 + rs[t].dims.0 && rs[t].pos.1 <= j < rs[t].pos.1
                    + rs[t].dims.1 implies !(#[trigger] g[i][j]) by {
                assert(!g2[i][j]);
            };
        };
        assert forall|t: int| 1 <= t < rs.len() implies rects_disjoint(rs[0], #[trigger] rs[t]) by {
            if !rects_disjoint(rs[0], rs[t]) {
                lemma_overlap_common_cell(rs[0], rs[t]);
                let (i, j) = choose|i: int, j: int|
                    in_rect(rs[0], i, j) && #[trigger] in_rect(rs[t], i, j);
                assert(g2[i][j]);
                assert(rect_cells_free(g2, rs[t]));
                assert(!g2[i][j]);
            }
        };
    }
}

// ---- one packing attempt at a fixed bin width ----

/// Sum of the rectangle areas from index `t` on.
pub open spec fn sum_area_from(rects: Seq<(u32, u32)>, t: int) -> int
    decreases rects.len() - t,
{
    if t < 0 || t >= rects.len() {
        0
    } else {
        rects[t].0 * rects[t].1 + sum_area_from(rects, t + 1)
    }
}

/// Every rectangle fits an `h x w` bin on its own.
pub open spec fn dims_fit(rects: Seq<(u32, u32)>, h: int, w: int) -> bool {
    forall|t: int|
        0 <= t < rects.len() ==> (#[trigger] rects[t]).0 <= h && rects[t].1 <= w
}

/// Larger of two integers.
pub open spec fn max2(a: int, b: int) -> int {
    if a >= b {
        a
    } else {
        b
    }
}

/// Tight power-of-two bound around the placed rectangles from index `t`
/// on: `(height, width)`, both `0` for an empty list.
pub open spec fn overall_dims_from(rs: Seq<Rect>, t: int) -> (int, int)
    decreases rs.len() - t,
{
    if t < 0 || t >= rs.len() {
        (0, 0)
    } else {
        let rest = overall_dims_from(rs, t + 1);
        (
            max2(ceil_pow2(rs[t].pos.0 + rs[t].dims.0), rest.0),
            max2(ceil_pow2(rs[t].pos.1 + rs[t].dims.1), rest.1),
        )
    }
}

proof fn lemma_sum_area_from_nonneg(rects: Seq<(u32, u32)>, t: int)
    ensures
        sum_area_from(rects, t) >= 0,
    decreases rects.len() - t,
{
    if 0 <= t < rects.len() {
        lemma_sum_area_from_nonneg(rects, t + 1);
    }
}

/// What one attempt at bin width `width` returns: `None` if some
/// rectangle alone cannot fit or the total area exceeds the bin, else the
/// first-fit placement into an empty `max_height x width` grid, together
/// with the tight power-of-two bound around the placed rectangles.
pub open spec fn try_pack_spec(max_height: int, width: int, rects: Seq<(u32, u32)>) -> Option<
    (Seq<Rect>, (int, int)),
> {
    if !dims_fit(rects, max_height, width) {
        None
    } else if sum_area_from(rects, 0) > max_height * width {
        None
    } else {
        match place_all(empty_grid(max_height, width), width, rects) {
            None => None,
            Some(pr) => Some((pr.0, overall_dims_from(pr.0, 0))),
        }
    }
}

/// Computes the tight power-of-two bound around placed rectangles.
fn overall_dims(rects: &Vec<Rect>) -> (r: (u32, u32))
    requires
        forall|t: int|
            0 <= t < rects@.len() ==> rect_in_bounds(
                #[trigger] rects@[t],
                MAX_MAX_DIM as int,
                MAX_MAX_DIM as int,
            ),
    ensures
        (r.0 as int, r.1 as int) == overall_dims_from(rects@, 0),
        r.0 <= 16384,
        r.1 <= 16384,
{
    proof {
        lemma2_to64();
        lemma_ceil_pow2_fixpoint(14);
    }
    let mut best_h: u32 = 0;
    let mut best_w: u32 = 0;
    let mut t: usize = rects.len();
    while t > 0
        invariant
            t <= rects@.len(),
            forall|u: int|
                0 <= u < rects@.len() ==> rect_in_bounds(
                    #[trigger] rects@[u],
                    MAX_MAX_DIM as int,
                    MAX_MAX_DIM as int,
                ),
            (best_h as int, best_w as int) == overall_dims_from(rects@, t as int),
            best_h <= 16384,
            best_w <= 16384,
        decreases t,
    {
        t = t - 1;
        let rect = rects[t];
        let bottom = rect.pos.0 + rect.dims.0;
        let right = rect.pos.1 + rect.dims.1;
        let ch = ceil_pow_2(bottom);
        let cw = ceil_pow_2(right);
        proof {
            lemma2_to64();
            lemma_ceil_pow2_fixpoint(14);
            lemma_ceil_pow2_mono(bottom as int, 16384);
            lemma_ceil_pow2_mono(right as int, 16384);
        }
        if ch > best_h {
            best_h = ch;
        }
        if cw > best_w {
            best_w = cw;
        }
    }
    (best_h, best_w)
}

/// A successful packing: one placed rectangle per input rectangle, in the
/// caller's original order, inside a bin of power-of-two `dims`.
pub struct Pack {
    rects: Vec<Rect>,
    dims: (u32, u32),
}

impl Pack {
    pub closed spec fn spec_rects(&self) -> Seq<Rect> {
        self.rects@
    }

    pub closed spec fn spec_dims(&self) -> (u32, u32) {
        self.dims
    }

    pub closed spec fn wf(&self) -> bool {
        &&& self.dims.0 <= 16384
        &&& self.dims.1 <= 16384
    }

    /// Height of the chosen bin.
    pub fn height(&self) -> (r: u32)
        ensures
            r == self.spec_dims().0,
    {
        self.dims.0
    }

    /// Width of the chosen bin.
    pub fn width(&self) -> (r: u32)
        ensures
            r == self.spec_dims().1,
    {
        self.dims.1
    }

    /// The placed rectangles, index-aligned with the input rectangles.
    pub fn rects(&self) -> (r: &Vec<Rect>)
        ensures
            r@ == self.spec_rects(),
    {
        &self.rects
    }

    /// Area of the chosen bin.
    pub fn area(&self) -> (r: u32)
        requires
            self.wf(),
        ensures
            r as int == self.spec_dims().0 as int * self.spec_dims().1 as int,
    {
        proof {
            assert(self.dims.0 as int * self.dims.1 as int <= 16384 * 16384) by (nonlinear_arith)
                requires
                    self.dims.0 <= 16384,
                    self.dims.1 <= 16384,
            ;
        }
        self.dims.0 * self.dims.1
    }
}

/// Attempts a full first-fit placement of `rects` (already in placement
/// order) into a fresh `max_height x width` grid.
fn try_pack_rects(max_height: u32, width: u32, ordered_rects: &Vec<(u32, u32)>) -> (r: Option<
    Pack,
>)
    requires
        1 <= max_height <= MAX_MAX_DIM,
        1 <= width <= MAX_MAX_DIM,
        forall|t: int|
            0 <= t < ordered_rects@.len() ==> (#[trigger] ordered_rects@[t]).0 >= 1
                && ordered_rects@[t].1 >= 1,
    ensures
        match r {
            Some(p) => {
                &&& try_pack_spec(max_height as int, width as int, ordered_rects@) == Some(
                    (p.spec_rects(), (p.spec_dims().0 as int, p.spec_dims().1 as int)),
                )
                &&& p.wf()
            },
            None => try_pack_spec(max_height as int, width as int, ordered_rects@) is None,
        },
{
    let ghost rseq = ordered_rects@;
    proof {
        lemma_dims_small(max_height as int, width as int);
    }
    let cap: u64 = (max_height as u64) * (width as u64);
    let mut area: u64 = 0;
    let mut t: usize = 0;
    while t < ordered_rects.len()
        invariant
            t <= rseq.len(),
            rseq == ordered_rects@,
            cap == max_height as int * width as int,
            cap <= 100_000_000,
            1 <= max_height <= MAX_MAX_DIM,
            1 <= width <= MAX_MAX_DIM,
            area <= cap,
            sum_area_from(rseq, 0) == area + sum_area_from(rseq, t as int),
            forall|u: int| 0 <= u < t ==> (#[trigger] rseq[u]).0 <= max_height && rseq[u].1 <= width,
        decreases rseq.len() - t,
    {
        let (rh, rw) = ordered_rects[t];
        if rh > max_height || rw > width {
            proof {
                assert(!dims_fit(rseq, max_height as int, width as int));
            }
            return None;
        }
        proof {
            lemma_dims_small(rh as int, rw as int);
        }
        area = area + (rh as u64) * (rw as u64);
        if area > cap {
            proof {
                lemma_sum_area_from_nonneg(rseq, t + 1);
                assert(sum_area_from(rseq, 0) > max_height as int * width as int);
            }
            return None;
        }
        t = t + 1;
    }
    proof {
        assert(dims_fit(rseq, max_height as int, width as int));
        assert(sum_area_from(rseq, 0) <= max_height as int * width as int);
    }

    let mut grid = BitGrid::new(max_height, width);
    proof {
        assert(grid@ =~~= empty_grid(max_height as int, width as int));
    }
    let ghost g_start = grid@;
    let mut result: Vec<Rect> = Vec::new();
    proof {
        assert(rseq.skip(0) =~= rseq);
        assert(result@.len() == 0);
        match place_all(g_start, width as int, rseq) {
            Some(pr) => {
                assert(result@ + pr.0 =~= pr.0);
            },
            None => {},
        }
    }
    let mut t: usize = 0;
    while t < ordered_rects.len()
        invariant
            t <= rseq.len(),
            rseq == ordered_rects@,
            1 <= max_height <= MAX_MAX_DIM,
            1 <= width <= MAX_MAX_DIM,
            dims_fit(rseq, max_height as int, width as int),
            forall|u: int| 0 <= u < rseq.len() ==> (#[trigger] rseq[u]).0 >= 1 && rseq[u].1 >= 1,
            grid.wf(),
            grid.spec_height() == max_height,
            grid.spec_width() == width,
            g_start == empty_grid(max_height as int, width as int),
            result@.len() == t,
            match place_all(grid@, width as int, rseq.skip(t as int)) {
                Some(pr) => place_all(g_start, width as int, rseq) == Some(
                    (result@ + pr.0, pr.1),
                ),
                None => place_all(g_start, width as int, rseq) is None,
            },
        decreases rseq.len() - t,
    {
        let (rh, rw) = ordered_rects[t];
        let ghost g_before = grid@;
        let ghost rest = rseq.skip(t as int);
        proof {
            assert(rest[0] == rseq[t as int]);
            assert(rest.drop_first() =~= rseq.skip(t as int + 1));
        }
        match grid.fill_rect(rh, rw) {
            Some(pos) => {
                result.push(Rect { pos, dims: (rh, rw) });
                proof {
                    let specpos = first_fit_from(
                        g_before,
                        width as int,
                        rh as int,
                        rw as int,
                        0,
                        0,
                    )->Some_0;
                    assert(specpos == (pos.0 as int, pos.1 as int));
                    let rect = Rect {
                        pos: ((specpos.0) as u32, (specpos.1) as u32),
                        dims: rest[0],
                    };
                    assert(rect == Rect { pos, dims: (rh, rw) });
                    match place_all(grid@, width as int, rseq.skip(t as int + 1)) {
                        Some(pr2) => {
                            assert(place_all(g_before, width as int, rest) == Some(
                                (seq![rect] + pr2.0, pr2.1),
                            ));
                            assert(result@ =~= result@.subrange(0, result@.len() - 1) + seq![
                                Rect { pos, dims: (rh, rw) },
                            ]);
                            assert((result@.subrange(0, result@.len() - 1) + seq![rect]) + pr2.0
                                =~= result@.subrange(0, result@.len() - 1) + (seq![rect] + pr2.0));
                        },
                        None => {
                            assert(place_all(g_before, width as int, rest) is None);
                        },
                    }
                }
            },
            None => {
                proof {
                    assert(place_all(g_before, width as int, rest) is None);
                }
                return None;
            },
        }
        t = t + 1;
    }
    proof {
        assert(rseq.skip(rseq.len() as int) =~= Seq::empty());
        assert(place_all(grid@, width as int, Seq::empty()) == Some(
            (Seq::<Rect>::empty(), grid@),
        ));
        assert(result@ + Seq::<Rect>::empty() =~= result@);
        assert(place_all(g_start, width as int, rseq) == Some((result@, grid@)));
        lemma_place_all_props(
            g_start,
            max_height as int,
            width as int,
            rseq,
            result@,
            grid@,
        );
        assert forall|u: int| 0 <= u < result@.len() implies rect_in_bounds(
            #[trigger] result@[u],
            MAX_MAX_DIM as int,
            MAX_MAX_DIM as int,
        ) by {
            assert(rect_in_bounds(result@[u], max_height as int, width as int));
        }
    }
    let dims = overall_dims(&result);
    Some(Pack { rects: result, dims })
}

// ---- sorting by descending area, and permutations ----

/// Area of the rectangle carried by an index/dimension pair.
pub open spec fn pair_area(p: (usize, (u32, u32))) -> int {
    p.1.0 * p.1.1
}

/// Stable insertion into a sequence sorted by descending area: `x` goes
/// after every element whose area is at least its own.
pub open spec fn insert_desc(s: Seq<(usize, (u32, u32))>, x: (usize, (u32, u32))) -> Seq<
    (usize, (u32, u32)),
>
    decreases s.len(),
{
    if s.len() == 0 {
        seq![x]
    } else if pair_area(s.last()) < pair_area(x) {
        insert_desc(s.drop_last(), x).push(s.last())
    } else {
        s.push(x)
    }
}

/// Stable insertion sort by descending area.
pub open spec fn sort_desc(s: Seq<(usize, (u32, u32))>) -> Seq<(usize, (u32, u32))>
    decreases s.len(),
{
    if s.len() == 0 {
        s
    } else {
        insert_desc(sort_desc(s.drop_last()), s.last())
    }
}

/// One when the pair carries original index `v`, else zero.
pub open spec fn ind_idx(p: (usize, (u32, u32)), v: int) -> int {
    if p.0 == v {
        1
    } else {
        0
    }
}

/// How many entries carry original index `v`.
pub open spec fn count_idx(s: Seq<(usize, (u32, u32))>, v: int) -> int
    decreases s.len(),
{
    if s.len() == 0 {
        0
    } else {
        count_idx(s.drop_last(), v) + ind_idx(s.last(), v)
    }
}

/// The input rectangles tagged with their original index.
pub open spec fn enumerate(rects: Seq<(u32, u32)>) -> Seq<(usize, (u32, u32))> {
    Seq::new(rects.len(), |i: int| (i as usize, rects[i]))
}

proof fn lemma_count_idx_le_len(s: Seq<(usize, (u32, u32))>, v: int)
    ensures
        0 <= count_idx(s, v) <= s.len(),
    decreases s.len(),
{
    if s.len() > 0 {
        lemma_count_idx_le_len(s.drop_last(), v);
    }
}

proof fn lemma_insert_desc_len(s: Seq<(usize, (u32, u32))>, x: (usize, (u32, u32)))
    ensures
        insert_desc(s, x).len() == s.len() + 1,
    decreases s.len(),
{
    if s.len() > 0 && pair_area(s.last()) < pair_area(x) {
        lemma_insert_desc_len(s.drop_last(), x);
    }
}

proof fn lemma_sort_desc_len(s: Seq<(usize, (u32, u32))>)
    ensures
        sort_desc(s).len() == s.len(),
    decreases s.len(),
{
    if s.len() > 0 {
        lemma_sort_desc_len(s.drop_last());
        lemma_insert_desc_len(sort_desc(s.drop_last()), s.last());
    }
}

proof fn lemma_insert_desc_count(s: Seq<(usize, (u32, u32))>, x: (usize, (u32, u32)), v: int)
    ensures
        count_idx(insert_desc(s, x), v) == count_idx(s, v) + ind_idx(x, v),
    decreases s.len(),
{
    if s.len() == 0 {
        assert(insert_desc(s, x) =~= seq![x]);
        assert(insert_desc(s, x).drop_last() =~= Seq::<(usize, (u32, u32))>::empty());
        assert(insert_desc(s, x).last() == x);
        assert(count_idx(Seq::<(usize, (u32, u32))>::empty(), v) == 0);
        assert(count_idx(insert_desc(s, x), v) == ind_idx(x, v));
        assert(count_idx(s, v) == 0);
    } else if pair_area(s.last()) < pair_area(x) {
        lemma_insert_desc_count(s.drop_last(), x, v);
        lemma_insert_desc_len(s.drop_last(), x);
        let r = insert_desc(s.drop_last(), x).push(s.last());
        assert(r.drop_last() =~= insert_desc(s.drop_last(), x));
        assert(r.last() == s.last());
    } else {
        let r = s.push(x);
        assert(r.drop_last() =~= s);
        assert(r.last() == x);
    }
}

proof fn lemma_sort_desc_count(s: Seq<(usize, (u32, u32))>, v: int)
    ensures
        count_idx(sort_desc(s), v) == count_idx(s, v),
    decreases s.len(),
{
    if s.len() > 0 {
        lemma_sort_desc_count(s.drop_last(), v);
        lemma_insert_desc_count(sort_desc(s.drop_last()), s.last(), v);
    }
}

proof fn lemma_enumerate_count(rects: Seq<(u32, u32)>, v: int)
    requires
        rects.len() <= usize::MAX,
    ensures
        count_idx(enumerate(rects), v) == if 0 <= v < rects.len() {
            1int
        } else {
            0int
        },
    decreases rects.len(),
{
    if rects.len() > 0 {
        let e = enumerate(rects);
        assert(e.drop_last() =~= enumerate(rects.drop_last()));
        lemma_enumerate_count(rects.drop_last(), v);
        assert(e.last().0 == rects.len() - 1);
    }
}

proof fn lemma_count_exists(s: Seq<(usize, (u32, u32))>, v: int)
    requires
        count_idx(s, v) >= 1,
    ensures
        exists|t: int| 0 <= t < s.len() && (#[trigger] s[t]).0 == v,
    decreases s.len(),
{
    if s.len() > 0 {
        if s.last().0 == v {
            assert(s[s.len() - 1].0 == v);
        } else {
            lemma_count_exists(s.drop_last(), v);
            let t = choose|t: int| 0 <= t < s.drop_last().len() && (#[trigger] s.drop_last()[t]).0 == v;
            assert(s[t].0 == v);
        }
    }
}

proof fn lemma_two_at_idx_count(s: Seq<(usize, (u32, u32))>, v: int, t: int, u: int)
    requires
        0 <= t < u < s.len(),
        s[t].0 == v,
        s[u].0 == v,
    ensures
        count_idx(s, v) >= 2,
    decreases s.len(),
{
    lemma_count_idx_le_len(s.drop_last(), v);
    if u == s.len() - 1 {
        // count over drop_last is >= 1 because of t
        lemma_one_at_idx_count(s.drop_last(), v, t);
    } else {
        lemma_two_at_idx_count(s.drop_last(), v, t, u);
    }
}

proof fn lemma_one_at_idx_count(s: Seq<(usize, (u32, u32))>, v: int, t: int)
    requires
        0 <= t < s.len(),
        s[t].0 == v,
    ensures
        count_idx(s, v) >= 1,
    decreases s.len(),
{
    lemma_count_idx_le_len(s.drop_last(), v);
    if t < s.len() - 1 {
        lemma_one_at_idx_count(s.drop_last(), v, t);
    }
}

/// Elements of a stable insertion are elements of the input (plus `x`).
proof fn lemma_insert_desc_elems(s: Seq<(usize, (u32, u32))>, x: (usize, (u32, u32)))
    ensures
        forall|t: int|
            0 <= t < insert_desc(s, x).len() ==> (#[trigger] insert_desc(s, x)[t]) == x
                || exists|u: int| 0 <= u < s.len() && s[u] == insert_desc(s, x)[t],
    decreases s.len(),
{
    lemma_insert_desc_len(s, x);
    if s.len() == 0 {
    } else if pair_area(s.last()) < pair_area(x) {
        lemma_insert_desc_elems(s.drop_last(), x);
        let r = insert_desc(s.drop_last(), x).push(s.last());
        assert forall|t: int|
            0 <= t < r.len() implies (#[trigger] r[t]) == x || exists|u: int|
            0 <= u < s.len() && s[u] == r[t] by {
            if t == r.len() - 1 {
                assert(s[s.len() - 1] == r[t]);
            } else {
                assert(r[t] == insert_desc(s.drop_last(), x)[t]);
                if r[t] != x {
                    let u = choose|u: int|
                        0 <= u < s.drop_last().len() && s.drop_last()[u] == insert_desc(
                            s.drop_last(),
                            x,
                        )[t];
                    assert(s[u] == r[t]);
                }
            }
        }
    } else {
        let r = s.push(x);
        assert forall|t: int|
            0 <= t < r.len() implies (#[trigger] r[t]) == x || exists|u: int|
            0 <= u < s.len() && s[u] == r[t] by {
            if t < s.len() {
                assert(s[t] == r[t]);
            }
        }
    }
}

/// Elements of the sorted sequence are elements of the input.
proof fn lemma_sort_desc_elems(s: Seq<(usize, (u32, u32))>)
    ensures
        forall|t: int|
            0 <= t < sort_desc(s).len() ==> exists|u: int|
                0 <= u < s.len() && s[u] == #[trigger] sort_desc(s)[t],
    decreases s.len(),
{
    if s.len() > 0 {
        lemma_sort_desc_elems(s.drop_last());
        lemma_insert_desc_elems(sort_desc(s.drop_last()), s.last());
        let r = sort_desc(s);
        assert forall|t: int|
            0 <= t < r.len() implies exists|u: int| 0 <= u < s.len() && s[u] == #[trigger] r[t] by {
            if r[t] == s.last() {
                assert(s[s.len() - 1] == r[t]);
            } else {
                let w = choose|w: int|
                    0 <= w < sort_desc(s.drop_last()).len() && sort_desc(s.drop_last())[w] == r[t];
                let u = choose|u: int|
                    0 <= u < s.drop_last().len() && s.drop_last()[u] == sort_desc(
                        s.drop_last(),
                    )[w];
                assert(s[u] == r[t]);
            }
        }
    }
}

/// Where a stable insertion lands: `x` is placed at position `j` when
/// everything from `j` on has a strictly smaller area and (unless `j` is
/// `0`) the element before `j` has an area at least as large.
proof fn lemma_insert_desc_at(s: Seq<(usize, (u32, u32))>, x: (usize, (u32, u32)), j: int)
    requires
        0 <= j <= s.len(),
        forall|t: int| j <= t < s.len() ==> pair_area(#[trigger] s[t]) < pair_area(x),
        j > 0 ==> pair_area(s[j - 1]) >= pair_area(x),
    ensures
        insert_desc(s, x) =~= s.subrange(0, j) + seq![x] + s.subrange(j, s.len() as int),
    decreases s.len(),
{
    if s.len() == 0 {
    } else if j == s.len() {
        assert(pair_area(s.last()) >= pair_area(x));
        assert(insert_desc(s, x) == s.push(x));
        assert(s.subrange(0, j) =~= s);
        assert(s.subrange(j, s.len() as int) =~= Seq::empty());
    } else {
        assert(pair_area(s.last()) < pair_area(x));
        lemma_insert_desc_at(s.drop_last(), x, j);
        assert(s.drop_last().subrange(0, j) =~= s.subrange(0, j));
        assert(s.drop_last().subrange(j, s.drop_last().len() as int) =~= s.subrange(
            j,
            s.len() - 1,
        ));
    }
}

/// Insertion sort of index/dimension pairs by descending rectangle area,
/// matching `sort_desc` exactly.
fn sort_pairs_desc(v: &mut Vec<(usize, (u32, u32))>)
    ensures
        final(v)@ == sort_desc(old(v)@),
{
    let ghost orig = old(v)@;
    let n = v.len();
    if n == 0 {
        proof {
            assert(sort_desc(orig) =~= orig);
        }
        return ;
    }
    let mut i: usize = 1;
    proof {
        let p = orig.subrange(0, 1);
        assert(p.drop_last() =~= Seq::<(usize, (u32, u32))>::empty());
        assert(sort_desc(p.drop_last()) =~= Seq::<(usize, (u32, u32))>::empty());
        assert(insert_desc(Seq::empty(), p.last()) =~= seq![p.last()]);
        assert(sort_desc(p) == insert_desc(sort_desc(p.drop_last()), p.last()));
        assert(p.last() == orig[0]);
        assert(v@.subrange(0, 1) =~= seq![orig[0]]);
    }
    while i < n
        invariant
            1 <= i <= n,
            n == v@.len(),
            n == orig.len(),
            v@.subrange(0, i as int) == sort_desc(orig.subrange(0, i as int)),
            forall|t: int| i <= t < n ==> v@[t] == orig[t],
        decreases n - i,
    {
        let ghost pref = v@.subrange(0, i as int);
        proof {
            lemma_sort_desc_len(orig.subrange(0, i as int));
        }
        let x = v[i];
        let xa: u64 = mul_area(x);
        let mut j: usize = i;
        while j > 0 && mul_area(v[j - 1]) < xa
            invariant
                0 <= j <= i < n,
                n == v@.len(),
                n == orig.len(),
                x == orig[i as int],
                pref == sort_desc(orig.subrange(0, i as int)),
                pref.len() == i,
                xa == pair_area(x),
                forall|t: int| 0 <= t < j ==> v@[t] == pref[t],
                v@[j as int] == x,
                forall|t: int| j < t <= i ==> v@[t] == pref[t - 1],
                forall|t: int| i < t < n ==> v@[t] == orig[t],
                forall|t: int| j <= t < i ==> pair_area(#[trigger] pref[t]) < pair_area(x),
            decreases j,
        {
            let prev = v[j - 1];
            v.set(j, prev);
            v.set(j - 1, x);
            j = j - 1;
        }
        proof {
            lemma_insert_desc_at(pref, x, j as int);
            assert forall|t: int| 0 <= t <= i implies v@[t] == (pref.subrange(0, j as int)
                + seq![x] + pref.subrange(j as int, i as int))[t] by {};
            assert(v@.subrange(0, i as int + 1) =~= pref.subrange(0, j as int) + seq![x]
                + pref.subrange(j as int, i as int));
            assert(v@.subrange(0, i as int + 1) == insert_desc(pref, x));
            let p2 = orig.subrange(0, i as int + 1);
            assert(p2.drop_last() =~= orig.subrange(0, i as int));
            assert(p2.last() == orig[i as int]);
            assert(v@.subrange(0, i as int + 1) == sort_desc(p2));
        }
        i = i + 1;
    }
    proof {
        assert(v@ =~= v@.subrange(0, n as int));
        assert(orig.subrange(0, n as int) =~= orig);
    }
}

/// Area of the rectangle carried by a pair, widened so the product cannot
/// overflow.
fn mul_area(p: (usize, (u32, u32))) -> (r: u64)
    ensures
        r as int == pair_area(p),
{
    proof {
        assert((p.1.0 as int) * (p.1.1 as int) < 0x1_0000_0000_0000_0000) by (nonlinear_arith)
            requires
                0 <= p.1.0 < 0x1_0000_0000,
                0 <= p.1.1 < 0x1_0000_0000,
        ;
    }
    (p.1.0 as u64) * (p.1.1 as u64)
}

// ---- choosing the best candidate width, and the packer itself ----

/// Area of a candidate result.
pub open spec fn cand_area(c: (Seq<Rect>, (int, int))) -> int {
    c.1.0 * c.1.1
}

/// The better of two candidates: smaller area wins, the left (earlier,
/// i.e. narrower) candidate wins ties.
pub open spec fn better_of(
    a: Option<(Seq<Rect>, (int, int))>,
    b: Option<(Seq<Rect>, (int, int))>,
) -> Option<(Seq<Rect>, (int, int))> {
    match (a, b) {
        (Option::None, r) => r,
        (Option::Some(c), Option::None) => Some(c),
        (Option::Some(c), Option::Some(r)) => if cand_area(c) <= cand_area(r) {
            Some(c)
        } else {
            Some(r)
        },
    }
}

/// Best candidate over bin widths `pow2(lw) ..= pow2(log_ceil(max_dim))`,
/// tried in increasing order of width.
pub open spec fn best_from(max_dim: int, sdims: Seq<(u32, u32)>, lw: nat) -> Option<
    (Seq<Rect>, (int, int)),
>
    decreases log_ceil(max_dim) + 1 - lw,
{
    if lw > log_ceil(max_dim) {
        None
    } else {
        better_of(
            try_pack_spec(max_dim, pow2(lw) as int, sdims),
            best_from(max_dim, sdims, (lw + 1) as nat),
        )
    }
}

/// The original indices carried by a sequence of index/dimension pairs.
pub open spec fn order_of(s: Seq<(usize, (u32, u32))>) -> Seq<usize> {
    Seq::new(s.len(), |t: int| s[t].0)
}

/// The dimensions carried by a sequence of index/dimension pairs.
pub open spec fn dims_of(s: Seq<(usize, (u32, u32))>) -> Seq<(u32, u32)> {
    Seq::new(s.len(), |t: int| s[t].1)
}

/// Spec-level contents of an optional packing.
pub open spec fn pack_opt_spec(o: Option<Pack>) -> Option<(Seq<Rect>, (int, int))> {
    match o {
        Option::None => None,
        Option::Some(p) => Some(
            (p.spec_rects(), (p.spec_dims().0 as int, p.spec_dims().1 as int)),
        ),
    }
}

/// The placed rectangles put back in the caller's original order: the
/// rectangle at sorted position `t` returns to position `order[t]`.
pub open spec fn unpermute(rs: Seq<Rect>, order: Seq<usize>) -> Seq<Rect> {
    Seq::new(
        rs.len(),
        |p: int|
            rs[choose|t: int| 0 <= t < order.len() && (#[trigger] order[t]) as int == p],
    )
}

/// The packer, as a function of its inputs: `None` when a rectangle
/// exceeds `max_dim` on its own or no candidate width admits a complete
/// placement; otherwise the minimum-area candidate, restored to input
/// order.
pub open spec fn pack_spec(max_dim: int, rects: Seq<(u32, u32)>) -> Option<
    (Seq<Rect>, (int, int)),
> {
    if exists|t: int|
        0 <= t < rects.len() && ((#[trigger] rects[t]).0 > max_dim || rects[t].1 > max_dim) {
        None
    } else {
        let sorted = sort_desc(enumerate(rects));
        let order = order_of(sorted);
        let sdims = dims_of(sorted);
        match best_from(max_dim, sdims, 0) {
            None => None,
            Some(c) => Some((unpermute(c.0, order), c.1)),
        }
    }
}

proof fn lemma_better_of_assoc(
    a: Option<(Seq<Rect>, (int, int))>,
    b: Option<(Seq<Rect>, (int, int))>,
    c: Option<(Seq<Rect>, (int, int))>,
)
    ensures
        better_of(better_of(a, b), c) == better_of(a, better_of(b, c)),
{
}

/// A successful `try_pack_spec` result satisfies the packing invariants
/// with respect to the attempted bin.
proof fn lemma_try_pack_props(
    max_height: int,
    width: int,
    rects: Seq<(u32, u32)>,
    rs: Seq<Rect>,
    dims: (int, int),
)
    requires
        1 <= max_height <= MAX_MAX_DIM,
        1 <= width <= MAX_MAX_DIM,
        forall|t: int|
            0 <= t < rects.len() ==> (#[trigger] rects[t]).0 >= 1 && rects[t].1 >= 1,
        try_pack_spec(max_height, width, rects) == Some((rs, dims)),
    ensures
        rs.len() == rects.len(),
        forall|t: int| 0 <= t < rs.len() ==> (#[trigger] rs[t]).dims == rects[t],
        forall|t: int| 0 <= t < rs.len() ==> rect_in_bounds(#[trigger] rs[t], max_height, width),
        forall|t: int, u: int|
            0 <= t < u < rs.len() ==> rects_disjoint(#[trigger] rs[t], #[trigger] rs[u]),
        dims == overall_dims_from(rs, 0),
{
    let g0 = empty_grid(max_height, width);
    assert(grid_wf(g0, max_height, width));
    let pr = place_all(g0, width, rects)->Some_0;
    lemma_place_all_props(g0, max_height, width, rects, pr.0, pr.1);
}

/// Properties of the tight power-of-two bound: it covers every placed
/// rectangle, stays within any power-of-two bound the rectangles respect,
/// and is itself a pair of powers of two when the list is nonempty.
proof fn lemma_overall_dims_props(rs: Seq<Rect>, t: int, hb: int, wb: int)
    requires
        0 <= t <= rs.len(),
        is_pow2(hb),
        is_pow2(wb),
        forall|u: int|
            t <= u < rs.len() ==> (#[trigger] rs[u]).pos.0 + rs[u].dims.0 <= hb && rs[u].pos.1
                + rs[u].dims.1 <= wb,
    ensures
        ({
            let d = overall_dims_from(rs, t);
            &&& 0 <= d.0 <= hb
            &&& 0 <= d.1 <= wb
            &&& t < rs.len() ==> is_pow2(d.0) && is_pow2(d.1)
            &&& forall|u: int|
                t <= u < rs.len() ==> (#[trigger] rs[u]).pos.0 + rs[u].dims.0 <= d.0 && rs[u].pos.1
                    + rs[u].dims.1 <= d.1
        }),
    decreases rs.len() - t,
{
    lemma_pow2_pos(log_ceil(hb));
    lemma_pow2_pos(log_ceil(wb));
    if t < rs.len() {
        lemma_overall_dims_props(rs, t + 1, hb, wb);
        let rest = overall_dims_from(rs, t + 1);
        let bottom = rs[t].pos.0 + rs[t].dims.0;
        let right = rs[t].pos.1 + rs[t].dims.1;
        lemma_log_ceil(bottom as int);
        lemma_log_ceil(right as int);
        lemma_ceil_pow2_fixpoint(log_ceil(bottom as int));
        lemma_ceil_pow2_fixpoint(log_ceil(right as int));
        lemma_ceil_pow2_mono(bottom as int, hb);
        lemma_ceil_pow2_mono(right as int, wb);
        lemma_pow2_pos(log_ceil(bottom as int));
        lemma_pow2_pos(log_ceil(right as int));
    }
}

/// A successful `best_from` result is the result of one of the attempted
/// widths.
proof fn lemma_best_from_exists(max_dim: int, sdims: Seq<(u32, u32)>, lw: nat)
    requires
        best_from(max_dim, sdims, lw) is Some,
    ensures
        exists|k: nat|
            lw <= k <= log_ceil(max_dim) && #[trigger] try_pack_spec(max_dim, pow2(k) as int, sdims)
                == best_from(max_dim, sdims, lw),
    decreases log_ceil(max_dim) + 1 - lw,
{
    let cur = try_pack_spec(max_dim, pow2(lw) as int, sdims);
    let rest = best_from(max_dim, sdims, (lw + 1) as nat);
    if best_from(max_dim, sdims, lw) == cur && cur is Some {
        assert(lw <= lw <= log_ceil(max_dim) && try_pack_spec(max_dim, pow2(lw) as int, sdims)
            == best_from(max_dim, sdims, lw));
    } else {
        lemma_best_from_exists(max_dim, sdims, (lw + 1) as nat);
        let k = choose|k: nat|
            lw + 1 <= k <= log_ceil(max_dim) && #[trigger] try_pack_spec(
                max_dim,
                pow2(k) as int,
                sdims,
            ) == best_from(max_dim, sdims, (lw + 1) as nat);
        assert(lw <= k <= log_ceil(max_dim) && try_pack_spec(max_dim, pow2(k) as int, sdims)
            == best_from(max_dim, sdims, lw));
    }
}

/// Some entry of `order` names position `p`.
pub open spec fn covered(order: Seq<usize>, p: int) -> bool {
    exists|t: int| 0 <= t < order.len() && (#[trigger] order[t]) as int == p
}

/// Moves each value to the position its `order` entry names: the value at
/// index `t` ends up at index `order[t]`.
fn permute(vals: &mut Vec<Rect>, order: &Vec<usize>)
    requires
        old(vals)@.len() == order@.len(),
        forall|t: int| 0 <= t < order@.len() ==> (#[trigger] order@[t]) < order@.len(),
        forall|t: int, u: int| 0 <= t < u < order@.len() ==> order@[t] != order@[u],
        forall|p: int| 0 <= p < order@.len() ==> #[trigger] covered(order@, p),
    ensures
        final(vals)@.len() == old(vals)@.len(),
        forall|t: int|
            0 <= t < order@.len() ==> final(vals)@[order@[t] as int] == old(vals)@[t],
{
    let ghost vals0 = old(vals)@;
    let n = vals.len();
    let mut slots: Vec<Option<Rect>> = Vec::new();
    let mut k: usize = 0;
    while k < n
        invariant
            slots@.len() == k,
            k <= n,
        decreases n - k,
    {
        slots.push(None);
        k = k + 1;
    }
    let mut t: usize = 0;
    while t < n
        invariant
            t <= n,
            n == vals@.len(),
            vals@ == vals0,
            n == order@.len(),
            slots@.len() == n,
            forall|u: int| 0 <= u < n ==> (#[trigger] order@[u]) < n,
            forall|u: int, w: int| 0 <= u < w < n ==> order@[u] != order@[w],
            forall|u: int|
                0 <= u < t ==> slots@[order@[u] as int] == Some(vals0[u]),
        decreases n - t,
    {
        let dst = order[t];
        let val = vals[t];
        slots.set(dst, Some(val));
        proof {
            assert forall|u: int|
                0 <= u < t + 1 implies slots@[order@[u] as int] == Some(vals0[u]) by {
                if u < t {
                    assert(order@[u] != order@[t as int]);
                }
            }
        }
        t = t + 1;
    }
    let mut p: usize = 0;
    while p < n
        invariant
            p <= n,
            n == vals@.len(),
            n == order@.len(),
            slots@.len() == n,
            forall|u: int| 0 <= u < n ==> (#[trigger] order@[u]) < n,
            forall|u: int, w: int| 0 <= u < w < n ==> order@[u] != order@[w],
            forall|q: int| 0 <= q < n ==> #[trigger] covered(order@, q),
            forall|u: int| 0 <= u < n ==> slots@[order@[u] as int] == Some(vals0[u]),
            forall|u: int|
                0 <= u < n && (order@[u] as int) < p ==> vals@[order@[u] as int] == vals0[u],
        decreases n - p,
    {
        proof {
            assert(covered(order@, p as int));
            let u = choose|u: int| 0 <= u < n && (#[trigger] order@[u]) as int == p as int;
            assert(slots@[p as int] == Some(vals0[u]));
        }
        let slot = slots[p];
        match slot {
            Some(r) => {
                vals.set(p, r);
                proof {
                    assert forall|u: int|
                        0 <= u < n && (order@[u] as int) < p + 1 implies vals@[order@[u] as int]
                        == vals0[u] by {
                        if order@[u] as int == p as int {
                            assert(Some(vals0[u]) == Some(r));
                        }
                    }
                }
            },
            None => {
                proof {
                    assert(false);
                }
            },
        }
        p = p + 1;
    }
}

impl Pack {
    /// Packs the given `(height, width)` rectangles, all with positive
    /// dimensions, into the smallest-area power-of-two bin whose height
    /// and width stay within `max_dim` (itself a power of two at most
    /// `MAX_MAX_DIM`). Returns `None` when a single rectangle exceeds
    /// `max_dim` in either dimension or no candidate bin width admits a
    /// complete placement. An empty list packs into an empty `0x0` bin.
    /// The result is a pure function of the inputs, so packing the same
    /// list twice gives identical results.
    pub fn pack(max_dim: u32, rects: &Vec<(u32, u32)>) -> (r: Option<Pack>)
        requires
            max_dim <= MAX_MAX_DIM,
            is_pow2(max_dim as int),
            forall|t: int|
                0 <= t < rects@.len() ==> (#[trigger] rects@[t]).0 >= 1 && rects@[t].1 >= 1,
        ensures
            match r {
                Some(p) => {
                    &&& p.wf()
                    &&& pack_spec(max_dim as int, rects@) == Some(
                        (p.spec_rects(), (p.spec_dims().0 as int, p.spec_dims().1 as int)),
                    )
                    &&& p.spec_rects().len() == rects@.len()
                    &&& forall|t: int|
                        0 <= t < rects@.len() ==> (#[trigger] p.spec_rects()[t]).dims
                            == rects@[t]
                    &&& forall|t: int|
                        0 <= t < rects@.len() ==> rect_in_bounds(
                            #[trigger] p.spec_rects()[t],
                            p.spec_dims().0 as int,
                            p.spec_dims().1 as int,
                        )
                    &&& forall|t: int, u: int|
                        0 <= t < u < rects@.len() ==> rects_disjoint(
                            #[trigger] p.spec_rects()[t],
                            #[trigger] p.spec_rects()[u],
                        )
                    &&& rects@.len() > 0 ==> is_pow2(p.spec_dims().0 as int) && is_pow2(
                        p.spec_dims().1 as int,
                    )
                    &&& p.spec_dims().0 <= max_dim
                    &&& p.spec_dims().1 <= max_dim
                },
                None => pack_spec(max_dim as int, rects@) is None,
            },
    {
        let ghost md = max_dim as int;
        proof {
            lemma_log_ceil(md);
            lemma_pow2_pos(log_ceil(md));
        }
        let n = rects.len();
        let mut t: usize = 0;
        while t < n
            invariant
                t <= n,
                n == rects@.len(),
                max_dim <= MAX_MAX_DIM,
                forall|u: int|
                    0 <= u < t ==> (#[trigger] rects@[u]).0 <= max_dim && rects@[u].1 <= max_dim,
            decreases n - t,
        {
            let (h, w) = rects[t];
            if h > max_dim || w > max_dim {
                return None;
            }
            t = t + 1;
        }

        let mut pairs: Vec<(usize, (u32, u32))> = Vec::new();
        let mut t: usize = 0;
        while t < n
            invariant
                t <= n,
                n == rects@.len(),
                pairs@.len() == t,
                forall|u: int| 0 <= u < t ==> #[trigger] pairs@[u] == (u as usize, rects@[u]),
            decreases n - t,
        {
            let d = rects[t];
            pairs.push((t, d));
            t = t + 1;
        }
        proof {
            assert(pairs@ =~= enumerate(rects@));
        }
        let ghost e = enumerate(rects@);
        sort_pairs_desc(&mut pairs);
        let ghost srt = sort_desc(e);
        proof {
            lemma_sort_desc_len(e);
            lemma_sort_desc_elems(e);
            assert forall|t2: int| 0 <= t2 < n implies ((#[trigger] srt[t2]).0 < n && srt[t2].1
                == rects@[srt[t2].0 as int] && srt[t2].1.0 >= 1 && srt[t2].1.1 >= 1
                && srt[t2].1.0 <= max_dim && srt[t2].1.1 <= max_dim) by {
                let u = choose|u: int| 0 <= u < e.len() && e[u] == srt[t2];
                assert(e[u] == (u as usize, rects@[u]));
            }
        }

        let mut order: Vec<usize> = Vec::new();
        let mut sdims: Vec<(u32, u32)> = Vec::new();
        let mut t: usize = 0;
        while t < n
            invariant
                t <= n,
                pairs@ == srt,
                n == srt.len(),
                n == rects@.len(),
                order@.len() == t,
                sdims@.len() == t,
                forall|u: int| 0 <= u < t ==> (#[trigger] order@[u]) == srt[u].0,
                forall|u: int| 0 <= u < t ==> (#[trigger] sdims@[u]) == srt[u].1,
            decreases n - t,
        {
            let pr = pairs[t];
            order.push(pr.0);
            sdims.push(pr.1);
            t = t + 1;
        }
        proof {
            assert(order@ =~= order_of(srt));
            assert(sdims@ =~= dims_of(srt));
            assert forall|p: int| 0 <= p < n implies #[trigger] covered(order@, p) by {
                lemma_enumerate_count(rects@, p);
                lemma_sort_desc_count(e, p);
                lemma_count_exists(srt, p);
                let t2 = choose|t2: int| 0 <= t2 < srt.len() && (#[trigger] srt[t2]).0 == p;
                assert(order@[t2] as int == p);
            }
            assert forall|t2: int, u2: int|
                0 <= t2 < u2 < n implies order@[t2] != order@[u2] by {
                if order@[t2] == order@[u2] {
                    let v = order@[t2] as int;
                    lemma_two_at_idx_count(srt, v, t2, u2);
                    lemma_sort_desc_count(e, v);
                    lemma_enumerate_count(rects@, v);
                }
            }
        }

        let log_max = log_ceil_pow_2(max_dim);
        let mut best: Option<Pack> = None;
        let mut w: u32 = 1;
        let mut lw: u32 = 0;
        proof {
            lemma2_to64();
        }
        while lw <= log_max
            invariant
                lw <= log_max + 1,
                w as nat == pow2(lw as nat),
                log_max as nat == log_ceil(md),
                md == max_dim as int,
                1 <= max_dim <= MAX_MAX_DIM,
                is_pow2(md),
                pow2(log_ceil(md)) == md,
                log_max <= 31,
                n == sdims@.len(),
                forall|u: int|
                    0 <= u < n ==> (#[trigger] sdims@[u]).0 >= 1 && sdims@[u].1 >= 1
                        && sdims@[u].0 <= max_dim && sdims@[u].1 <= max_dim,
                match best {
                    Some(b) => b.wf(),
                    None => true,
                },
                better_of(pack_opt_spec(best), best_from(md, sdims@, lw as nat)) == best_from(
                    md,
                    sdims@,
                    0,
                ),
            decreases log_max + 1 - lw,
        {
            proof {
                if (lw as nat) < log_ceil(md) {
                    lemma_pow2_strictly_increases(lw as nat, log_ceil(md));
                }
                lemma_pow2_pos(lw as nat);
            }
            let ghost b0 = pack_opt_spec(best);
            let ghost rest = best_from(md, sdims@, (lw + 1) as nat);
            let cand = try_pack_rects(max_dim, w, &sdims);
            let ghost c0 = pack_opt_spec(cand);
            proof {
                assert(c0 == try_pack_spec(md, pow2(lw as nat) as int, sdims@));
                assert(best_from(md, sdims@, lw as nat) == better_of(c0, rest));
                lemma_better_of_assoc(b0, c0, rest);
            }
            best = match (best, cand) {
                (None, c) => c,
                (Some(b), None) => Some(b),
                (Some(b), Some(c)) => if b.area() <= c.area() {
                    Some(b)
                } else {
                    Some(c)
                },
            };
            proof {
                assert(pack_opt_spec(best) == better_of(b0, c0));
                assert(better_of(pack_opt_spec(best), rest) == best_from(md, sdims@, 0));
                lemma_pow2_unfold((lw + 1) as nat);
            }
            lw = lw + 1;
            w = w * 2;
        }
        proof {
            assert(best_from(md, sdims@, lw as nat) is None);
            assert(pack_opt_spec(best) == best_from(md, sdims@, 0));
        }

        match best {
            None => {
                proof {
                    assert(pack_spec(md, rects@) is None);
                }
                None
            },
            Some(b) => {
                let ghost c = best_from(md, sdims@, 0)->Some_0;
                let Pack { rects: mut placed, dims } = b;
                proof {
                    assert(c.0 == placed@);
                    assert(c.1 == (dims.0 as int, dims.1 as int));
                    lemma_best_from_exists(md, sdims@, 0);
                    let k = choose|k: nat|
                        0 <= k <= log_ceil(md) && #[trigger] try_pack_spec(
                            md,
                            pow2(k) as int,
                            sdims@,
                        ) == best_from(md, sdims@, 0);
                    lemma_pow2_pos(k);
                    if k < log_ceil(md) {
                        lemma_pow2_strictly_increases(k, log_ceil(md));
                    }
                    lemma_try_pack_props(md, pow2(k) as int, sdims@, c.0, c.1);
                    lemma_overall_dims_props(c.0, 0, md, md);
                }
                permute(&mut placed, &order);
                let result = Pack { rects: placed, dims };
                proof {
                    let out = result.spec_rects();
                    let rs = c.0;
                    assert forall|p: int| 0 <= p < n implies {
                        &&& (#[trigger] out[p]).dims == rects@[p]
                        &&& rect_in_bounds(out[p], dims.0 as int, dims.1 as int)
                        &&& out[p] == unpermute(rs, order@)[p]
                    } by {
                        assert(covered(order@, p));
                        let t2 = choose|t2: int|
                            0 <= t2 < order@.len() && (#[trigger] order@[t2]) as int == p;
                        assert(out[p] == rs[t2]);
                        assert(rs[t2].dims == sdims@[t2]);
                        assert(sdims@[t2] == srt[t2].1);
                        assert(srt[t2].0 as int == p);
                        assert(srt[t2].1 == rects@[p]);
                        assert(rs[t2].pos.0 + rs[t2].dims.0 <= c.1.0);
                        assert(unpermute(rs, order@)[p] == rs[t2]);
                    }
                    assert forall|p: int, q: int|
                        0 <= p < q < n implies rects_disjoint(
                        #[trigger] out[p],
                        #[trigger] out[q],
                    ) by {
                        assert(covered(order@, p));
                        assert(covered(order@, q));
                        let tp = choose|t2: int|
                            0 <= t2 < order@.len() && (#[trigger] order@[t2]) as int == p;
                        let tq = choose|t2: int|
                            0 <= t2 < order@.len() && (#[trigger] order@[t2]) as int == q;
                        assert(out[p] == rs[tp]);
                        assert(out[q] == rs[tq]);
                        assert(tp != tq);
                        if tp < tq {
                            assert(rects_disjoint(rs[tp], rs[tq]));
                        } else {
                            assert(rects_disjoint(rs[tq], rs[tp]));
                        }
                    }
                    assert(out =~= unpermute(rs, order@));
                    assert(pack_spec(md, rects@) == Some((out, c.1)));
                }
                Some(result)
            },
        }
    }
}

} // verus!
