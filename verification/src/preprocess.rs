//! Image preprocessing: trimming transparent borders and splitting tile
//! sheets into their non-empty tiles.

use vstd::prelude::*;
use vstd::arithmetic::div_mod::lemma_fundamental_div_mod;
use crate::names::spec_str_lt;
use crate::image::{Image, PixelGrid, image_wf, alpha_at, MAX_IMAGE_DIM};
use crate::rect_packer::Rect;
use crate::BuildError;

verus! {

/// Row `r` holds a pixel with non-zero alpha among columns `0..w`.
pub open spec fn row_has_opaque(v: PixelGrid, w: int, r: int) -> bool {
    exists|c: int| 0 <= c < w && #[trigger] alpha_at(v, r, c) != 0
}

/// Column `c` holds a pixel with non-zero alpha among rows `0..h`.
pub open spec fn col_has_opaque(v: PixelGrid, h: int, c: int) -> bool {
    exists|r: int| 0 <= r < h && #[trigger] alpha_at(v, r, c) != 0
}

/// The image holds at least one pixel with non-zero alpha.
pub open spec fn has_opaque(v: PixelGrid, h: int, w: int) -> bool {
    exists|r: int| 0 <= r < h && #[trigger] row_has_opaque(v, w, r)
}

/// First row at or after `r` (up to `h`) holding an opaque pixel.
pub open spec fn first_opaque_row_from(v: PixelGrid, w: int, r: int, h: int) -> Option<int>
    decreases h - r,
{
    if r < 0 || r >= h {
        None
    } else if row_has_opaque(v, w, r) {
        Some(r)
    } else {
        first_opaque_row_from(v, w, r + 1, h)
    }
}

/// Last row at or before `r` holding an opaque pixel.
pub open spec fn last_opaque_row_from(v: PixelGrid, w: int, r: int) -> Option<int>
    decreases r + 1,
{
    if r < 0 {
        None
    } else if row_has_opaque(v, w, r) {
        Some(r)
    } else {
        last_opaque_row_from(v, w, r - 1)
    }
}

/// First column at or after `c` (up to `w`) holding an opaque pixel.
pub open spec fn first_opaque_col_from(v: PixelGrid, h: int, c: int, w: int) -> Option<int>
    decreases w - c,
{
    if c < 0 || c >= w {
        None
    } else if col_has_opaque(v, h, c) {
        Some(c)
    } else {
        first_opaque_col_from(v, h, c + 1, w)
    }
}

/// Last column at or before `c` holding an opaque pixel.
pub open spec fn last_opaque_col_from(v: PixelGrid, h: int, c: int) -> Option<int>
    decreases c + 1,
{
    if c < 0 {
        None
    } else if col_has_opaque(v, h, c) {
        Some(c)
    } else {
        last_opaque_col_from(v, h, c - 1)
    }
}

/// The tight bounding box of pixels with non-zero alpha, or `None` for a
/// fully transparent image.
pub open spec fn trim_spec(v: PixelGrid, h: int, w: int) -> Option<Rect> {
    match first_opaque_row_from(v, w, 0, h) {
        None => None,
        Some(top) => {
            let bottom = last_opaque_row_from(v, w, h - 1)->Some_0;
            let left = first_opaque_col_from(v, h, 0, w)->Some_0;
            let right = last_opaque_col_from(v, h, w - 1)->Some_0;
            Some(
                Rect {
                    pos: (top as u32, left as u32),
                    dims: ((bottom + 1 - top) as u32, (right + 1 - left) as u32),
                },
            )
        },
    }
}

proof fn lemma_first_opaque_row(v: PixelGrid, w: int, r0: int, h: int)
    requires
        0 <= r0,
    ensures
        match first_opaque_row_from(v, w, r0, h) {
            Some(t) => {
                &&& r0 <= t < h
                &&& row_has_opaque(v, w, t)
                &&& forall|r: int| r0 <= r < t ==> !(#[trigger] row_has_opaque(v, w, r))
            },
            None => forall|r: int| r0 <= r < h ==> !(#[trigger] row_has_opaque(v, w, r)),
        },
    decreases h - r0,
{
    if r0 < h && !row_has_opaque(v, w, r0) {
        lemma_first_opaque_row(v, w, r0 + 1, h);
    }
}

proof fn lemma_last_opaque_row(v: PixelGrid, w: int, r0: int)
    ensures
        match last_opaque_row_from(v, w, r0) {
            Some(t) => {
                &&& 0 <= t <= r0
                &&& row_has_opaque(v, w, t)
                &&& forall|r: int| t < r <= r0 ==> !(#[trigger] row_has_opaque(v, w, r))
            },
            None => forall|r: int| 0 <= r <= r0 ==> !(#[trigger] row_has_opaque(v, w, r)),
        },
    decreases r0 + 1,
{
    if r0 >= 0 && !row_has_opaque(v, w, r0) {
        lemma_last_opaque_row(v, w, r0 - 1);
    }
}

proof fn lemma_first_opaque_col(v: PixelGrid, h: int, c0: int, w: int)
    requires
        0 <= c0,
    ensures
        match first_opaque_col_from(v, h, c0, w) {
            Some(t) => {
                &&& c0 <= t < w
                &&& col_has_opaque(v, h, t)
                &&& forall|c: int| c0 <= c < t ==> !(#[trigger] col_has_opaque(v, h, c))
            },
            None => forall|c: int| c0 <= c < w ==> !(#[trigger] col_has_opaque(v, h, c)),
        },
    decreases w - c0,
{
    if c0 < w && !col_has_opaque(v, h, c0) {
        lemma_first_opaque_col(v, h, c0 + 1, w);
    }
}

proof fn lemma_last_opaque_col(v: PixelGrid, h: int, c0: int)
    ensures
        match last_opaque_col_from(v, h, c0) {
            Some(t) => {
                &&& 0 <= t <= c0
                &&& col_has_opaque(v, h, t)
                &&& forall|c: int| t < c <= c0 ==> !(#[trigger] col_has_opaque(v, h, c))
            },
            None => forall|c: int| 0 <= c <= c0 ==> !(#[trigger] col_has_opaque(v, h, c)),
        },
    decreases c0 + 1,
{
    if c0 >= 0 && !col_has_opaque(v, h, c0) {
        lemma_last_opaque_col(v, h, c0 - 1);
    }
}

fn row_is_opaque(im: &Image, r: u32) -> (b: bool)
    requires
        im.wf(),
        r < im.spec_height(),
    ensures
        b == row_has_opaque(im@, im.spec_width() as int, r as int),
{
    let w = im.width();
    let mut c: u32 = 0;
    while c < w
        invariant
            c <= w,
            im.wf(),
            w == im.spec_width(),
            r < im.spec_height(),
            forall|cc: int| 0 <= cc < c ==> #[trigger] alpha_at(im@, r as int, cc) == 0,
        decreases w - c,
    {
        let p = im.get_pixel(r, c);
        if p.3 != 0 {
            proof {
                assert(alpha_at(im@, r as int, c as int) != 0);
            }
            return true;
        }
        c = c + 1;
    }
    false
}

fn col_is_opaque(im: &Image, c: u32) -> (b: bool)
    requires
        im.wf(),
        c < im.spec_width(),
    ensures
        b == col_has_opaque(im@, im.spec_height() as int, c as int),
{
    let h = im.height();
    let mut r: u32 = 0;
    while r < h
        invariant
            r <= h,
            im.wf(),
            h == im.spec_height(),
            c < im.spec_width(),
            forall|rr: int| 0 <= rr < r ==> #[trigger] alpha_at(im@, rr, c as int) == 0,
        decreases h - r,
    {
        let p = im.get_pixel(r, c);
        if p.3 != 0 {
            proof {
                assert(alpha_at(im@, r as int, c as int) != 0);
            }
            return true;
        }
        r = r + 1;
    }
    false
}

/// Computes the tight bounding box of pixels with non-zero alpha, the
/// rectangle that survives when transparent padding is stripped; returns
/// `None` when the image has no opaque pixel at all.
pub fn trim(im: &Image) -> (r: Option<Rect>)
    requires
        im.wf(),
    ensures
        r == trim_spec(im@, im.spec_height() as int, im.spec_width() as int),
        r is Some <==> has_opaque(
            im@,
            im.spec_height() as int,
            im.spec_width() as int,
        ),
        match r {
            Some(rect) => {
                &&& rect.dims.0 >= 1 && rect.dims.1 >= 1
                &&& rect.pos.0 + rect.dims.0 <= im.spec_height()
                &&& rect.pos.1 + rect.dims.1 <= im.spec_width()
                &&& row_has_opaque(im@, im.spec_width() as int, rect.pos.0 as int)
                &&& row_has_opaque(
                    im@,
                    im.spec_width() as int,
                    rect.pos.0 + rect.dims.0 - 1,
                )
                &&& col_has_opaque(im@, im.spec_height() as int, rect.pos.1 as int)
                &&& col_has_opaque(
                    im@,
                    im.spec_height() as int,
                    rect.pos.1 + rect.dims.1 - 1,
                )
                &&& forall|rr: int|
                    0 <= rr < rect.pos.0 ==> !(#[trigger] row_has_opaque(
                        im@,
                        im.spec_width() as int,
                        rr,
                    ))
                &&& forall|rr: int|
                    rect.pos.0 + rect.dims.0 <= rr < im.spec_height() ==> !(
                    #[trigger] row_has_opaque(im@, im.spec_width() as int, rr))
                &&& forall|cc: int|
                    0 <= cc < rect.pos.1 ==> !(#[trigger] col_has_opaque(
                        im@,
                        im.spec_height() as int,
                        cc,
                    ))
                &&& forall|cc: int|
                    rect.pos.1 + rect.dims.1 <= cc < im.spec_width() ==> !(
                    #[trigger] col_has_opaque(im@, im.spec_height() as int, cc))
            },
            None => true,
        },
{
    let ghost v = im@;
    let ghost h = im.spec_height() as int;
    let ghost w = im.spec_width() as int;
    proof {
        lemma_first_opaque_row(v, w, 0, h);
        lemma_last_opaque_row(v, w, h - 1);
        lemma_first_opaque_col(v, h, 0, w);
        lemma_last_opaque_col(v, h, w - 1);
    }
    let height = im.height();
    let width = im.width();
    let mut top: u32 = 0;
    while top < height && !row_is_opaque(im, top)
        invariant
            top <= height,
            im.wf(),
            height == im.spec_height(),
            width == im.spec_width(),
            v == im@,
            h == height as int,
            w == width as int,
            forall|rr: int| 0 <= rr < top ==> !(#[trigger] row_has_opaque(v, w, rr)),
        decreases height - top,
    {
        top = top + 1;
    }
    if top == height {
        proof {
            assert(first_opaque_row_from(v, w, 0, h) is None) by {
                if first_opaque_row_from(v, w, 0, h) is Some {
                    let t = first_opaque_row_from(v, w, 0, h)->Some_0;
                    assert(!row_has_opaque(v, w, t));
                }
            }
            assert(!has_opaque(v, h, w));
        }
        return None;
    }
    proof {
        assert(row_has_opaque(v, w, top as int));
        assert(first_opaque_row_from(v, w, 0, h) == Some(top as int)) by {
            let t = first_opaque_row_from(v, w, 0, h)->Some_0;
            if t < top as int {
                assert(!row_has_opaque(v, w, t));
            }
            if t > top as int {
                assert(!row_has_opaque(v, w, top as int));
            }
        }
        assert(has_opaque(v, h, w));
    }
    let mut bottom: u32 = height - 1;
    while !row_is_opaque(im, bottom)
        invariant
            top <= bottom < height,
            im.wf(),
            height == im.spec_height(),
            width == im.spec_width(),
            v == im@,
            h == height as int,
            w == width as int,
            row_has_opaque(v, w, top as int),
            forall|rr: int| bottom < rr < h ==> !(#[trigger] row_has_opaque(v, w, rr)),
        decreases bottom,
    {
        bottom = bottom - 1;
    }
    proof {
        assert(last_opaque_row_from(v, w, h - 1) == Some(bottom as int)) by {
            let t = last_opaque_row_from(v, w, h - 1)->Some_0;
            if last_opaque_row_from(v, w, h - 1) is None {
                assert(!row_has_opaque(v, w, bottom as int));
            }
            if t < bottom as int {
                assert(!row_has_opaque(v, w, bottom as int));
            }
            if t > bottom as int {
                assert(!row_has_opaque(v, w, t));
            }
        }
    }
    let mut left: u32 = 0;
    while left < width && !col_is_opaque(im, left)
        invariant
            left <= width,
            im.wf(),
            height == im.spec_height(),
            width == im.spec_width(),
            v == im@,
            h == height as int,
            w == width as int,
            forall|cc: int| 0 <= cc < left ==> !(#[trigger] col_has_opaque(v, h, cc)),
        decreases width - left,
    {
        left = left + 1;
    }
    proof {
        // some column holds the opaque pixel of row `top`
        assert(left < width) by {
            if left == width {
                let c = choose|c: int| 0 <= c < w && #[trigger] alpha_at(v, top as int, c) != 0;
                assert(col_has_opaque(v, h, c));
            }
        }
        assert(first_opaque_col_from(v, h, 0, w) == Some(left as int)) by {
            if first_opaque_col_from(v, h, 0, w) is None {
                assert(!col_has_opaque(v, h, left as int));
            }
            let t = first_opaque_col_from(v, h, 0, w)->Some_0;
            if t < left as int {
                assert(!col_has_opaque(v, h, t));
            }
            if t > left as int {
                assert(!col_has_opaque(v, h, left as int));
            }
        }
    }
    let mut right: u32 = width - 1;
    while !col_is_opaque(im, right)
        invariant
            left <= right < width,
            im.wf(),
            height == im.spec_height(),
            width == im.spec_width(),
            v == im@,
            h == height as int,
            w == width as int,
            col_has_opaque(v, h, left as int),
            forall|cc: int| right < cc < w ==> !(#[trigger] col_has_opaque(v, h, cc)),
        decreases right,
    {
        right = right - 1;
    }
    proof {
        assert(last_opaque_col_from(v, h, w - 1) == Some(right as int)) by {
            if last_opaque_col_from(v, h, w - 1) is None {
                assert(!col_has_opaque(v, h, right as int));
            }
            let t = last_opaque_col_from(v, h, w - 1)->Some_0;
            if t < right as int {
                assert(!col_has_opaque(v, h, right as int));
            }
            if t > right as int {
                assert(!col_has_opaque(v, h, t));
            }
        }
    }
    Some(Rect { pos: (top, left), dims: (bottom - top + 1, right - left + 1) })
}

/// The `h x w` sub-grid of pixels anchored at `(top, left)`.
pub open spec fn crop_spec(v: PixelGrid, top: int, left: int, h: int, w: int) -> PixelGrid {
    Seq::new(h as nat, |r: int| Seq::new(w as nat, |c: int| v[top + r][left + c]))
}

/// Copies the pixel rectangle `rect` out of `im` into a fresh image.
pub fn crop(im: &Image, rect: Rect) -> (out: Image)
    requires
        im.wf(),
        rect.pos.0 + rect.dims.0 <= im.spec_height(),
        rect.pos.1 + rect.dims.1 <= im.spec_width(),
    ensures
        out.wf(),
        out.spec_height() == rect.dims.0,
        out.spec_width() == rect.dims.1,
        out@ == crop_spec(
            im@,
            rect.pos.0 as int,
            rect.pos.1 as int,
            rect.dims.0 as int,
            rect.dims.1 as int,
        ),
{
    let ghost target = crop_spec(
        im@,
        rect.pos.0 as int,
        rect.pos.1 as int,
        rect.dims.0 as int,
        rect.dims.1 as int,
    );
    let th = rect.dims.0;
    let tw = rect.dims.1;
    proof {
        im.lemma_wf_dims();
    }
    let mut out = Image::new(th, tw);
    let mut r: u32 = 0;
    while r < th
        invariant
            r <= th,
            im.wf(),
            out.wf(),
            out.spec_height() == th,
            out.spec_width() == tw,
            rect.pos.0 + th <= im.spec_height(),
            rect.pos.1 + tw <= im.spec_width(),
            target == crop_spec(im@, rect.pos.0 as int, rect.pos.1 as int, th as int, tw as int),
            out@.len() == th,
            forall|rr: int| 0 <= rr < th ==> (#[trigger] out@[rr]).len() == tw,
            forall|rr: int, cc: int|
                0 <= rr < r && 0 <= cc < tw ==> #[trigger] out@[rr][cc] == target[rr][cc],
        decreases th - r,
    {
        let mut c: u32 = 0;
        while c < tw
            invariant
                c <= tw,
                r < th,
                im.wf(),
                out.wf(),
                out.spec_height() == th,
                out.spec_width() == tw,
                rect.pos.0 + th <= im.spec_height(),
                rect.pos.1 + tw <= im.spec_width(),
                target == crop_spec(
                    im@,
                    rect.pos.0 as int,
                    rect.pos.1 as int,
                    th as int,
                    tw as int,
                ),
                out@.len() == th,
                forall|rr: int| 0 <= rr < th ==> (#[trigger] out@[rr]).len() == tw,
                forall|rr: int, cc: int|
                    0 <= rr < r && 0 <= cc < tw ==> #[trigger] out@[rr][cc] == target[rr][cc],
                forall|cc: int| 0 <= cc < c ==> #[trigger] out@[r as int][cc] == target[r as int][cc],
            decreases tw - c,
        {
            let p = im.get_pixel(rect.pos.0 + r, rect.pos.1 + c);
            out.set_pixel(r, c, p);
            c = c + 1;
        }
        r = r + 1;
    }
    proof {
        assert forall|rr: int| 0 <= rr < th implies out@[rr] =~= target[rr] by {}
        assert(out@ =~~= target);
    }
    out
}

/// Trimming is idempotent: cropping an image to its trim rectangle and
/// trimming again yields the whole cropped image, with no border left.
pub proof fn lemma_trim_idempotent(v: PixelGrid, h: int, w: int, rect: Rect)
    requires
        image_wf(v, h, w),
        trim_spec(v, h, w) == Some(rect),
        h <= MAX_IMAGE_DIM,
        w <= MAX_IMAGE_DIM,
    ensures
        trim_spec(
            crop_spec(v, rect.pos.0 as int, rect.pos.1 as int, rect.dims.0 as int, rect.dims.1 as int),
            rect.dims.0 as int,
            rect.dims.1 as int,
        ) == Some(Rect { pos: (0, 0), dims: rect.dims }),
{
    lemma_first_opaque_row(v, w, 0, h);
    lemma_last_opaque_row(v, w, h - 1);
    lemma_first_opaque_col(v, h, 0, w);
    lemma_last_opaque_col(v, h, w - 1);
    let top = rect.pos.0 as int;
    let left = rect.pos.1 as int;
    let th = rect.dims.0 as int;
    let tw = rect.dims.1 as int;
    let bottom = top + th - 1;
    let right = left + tw - 1;
    let cv = crop_spec(v, top, left, th, tw);
    // every opaque pixel lies inside the trim rectangle
    assert forall|r: int, c: int|
        0 <= r < h && 0 <= c < w && #[trigger] alpha_at(v, r, c) != 0 implies top <= r <= bottom
        && left <= c <= right by {
        assert(row_has_opaque(v, w, r));
        assert(col_has_opaque(v, h, c));
    }
    // the border rows and columns of the crop are opaque
    assert(row_has_opaque(cv, tw, 0)) by {
        let c = choose|c: int| 0 <= c < w && #[trigger] alpha_at(v, top, c) != 0;
        assert(alpha_at(cv, 0, c - left) == alpha_at(v, top, c));
    }
    assert(row_has_opaque(cv, tw, th - 1)) by {
        let c = choose|c: int| 0 <= c < w && #[trigger] alpha_at(v, bottom, c) != 0;
        assert(alpha_at(cv, th - 1, c - left) == alpha_at(v, bottom, c));
    }
    assert(col_has_opaque(cv, th, 0)) by {
        let r = choose|r: int| 0 <= r < h && #[trigger] alpha_at(v, r, left) != 0;
        assert(alpha_at(cv, r - top, 0) == alpha_at(v, r, left));
    }
    assert(col_has_opaque(cv, th, tw - 1)) by {
        let r = choose|r: int| 0 <= r < h && #[trigger] alpha_at(v, r, right) != 0;
        assert(alpha_at(cv, r - top, tw - 1) == alpha_at(v, r, right));
    }
    assert(first_opaque_row_from(cv, tw, 0, th) == Some(0int));
    assert(last_opaque_row_from(cv, tw, th - 1) == Some(th - 1));
    assert(first_opaque_col_from(cv, th, 0, tw) == Some(0int));
    assert(last_opaque_col_from(cv, th, tw - 1) == Some(tw - 1));
}

// ---- tile-sheet names and decimal rendering ----

/// `c` is an ASCII decimal digit.
pub open spec fn is_digit(c: char) -> bool {
    '0' <= c && c <= '9'
}

/// Numeric value of a digit character.
pub open spec fn digit_val(c: char) -> int {
    c as int - '0' as int
}

/// Every character is a decimal digit.
pub open spec fn all_digits(s: Seq<char>) -> bool {
    forall|i: int| 0 <= i < s.len() ==> is_digit(#[trigger] s[i])
}

/// Value of a digit string, most significant digit first.
pub open spec fn digits_val(s: Seq<char>) -> int
    decreases s.len(),
{
    if s.len() == 0 {
        0
    } else {
        digits_val(s.drop_last()) * 10 + digit_val(s.last())
    }
}

/// Start of the longest all-digit suffix of `s`.
pub open spec fn digit_suffix_start(s: Seq<char>) -> int
    decreases s.len(),
{
    if s.len() == 0 {
        0
    } else if !is_digit(s.last()) {
        s.len() as int
    } else {
        digit_suffix_start(s.drop_last())
    }
}

/// What an image name says about tiling: either a plain sprite name, or
/// `<base>_t<digits>` marking a tile sheet whose tile edge is the decimal
/// value of the digits.
pub enum TileParse {
    Plain,
    Tiled { base: Seq<char>, value: int },
}

/// Parses a name of the form `<base>_t<digits>`; any other shape is a
/// plain sprite name.
pub open spec fn tile_parse(name: Seq<char>) -> TileParse {
    let k = digit_suffix_start(name);
    if k < name.len() && k >= 2 && name[k - 2] == '_' && name[k - 1] == 't' {
        TileParse::Tiled {
            base: name.subrange(0, k - 2),
            value: digits_val(name.subrange(k, name.len() as int)),
        }
    } else {
        TileParse::Plain
    }
}

/// The decimal digit character for `d`.
pub open spec fn digit_char(d: int) -> char {
    if d == 0 {
        '0'
    } else if d == 1 {
        '1'
    } else if d == 2 {
        '2'
    } else if d == 3 {
        '3'
    } else if d == 4 {
        '4'
    } else if d == 5 {
        '5'
    } else if d == 6 {
        '6'
    } else if d == 7 {
        '7'
    } else if d == 8 {
        '8'
    } else {
        '9'
    }
}

/// Decimal rendering of a non-negative integer, no leading zeros.
pub open spec fn dec_chars(x: int) -> Seq<char>
    decreases x,
{
    if x < 10 {
        seq![digit_char(x)]
    } else {
        dec_chars(x / 10) + seq![digit_char(x % 10)]
    }
}

proof fn lemma_digit_suffix_start(s: Seq<char>)
    ensures
        0 <= digit_suffix_start(s) <= s.len(),
        forall|i: int| digit_suffix_start(s) <= i < s.len() ==> is_digit(#[trigger] s[i]),
        digit_suffix_start(s) > 0 ==> !is_digit(s[digit_suffix_start(s) - 1]),
    decreases s.len(),
{
    if s.len() > 0 && is_digit(s.last()) {
        lemma_digit_suffix_start(s.drop_last());
        let ks = digit_suffix_start(s);
        assert(ks == digit_suffix_start(s.drop_last()));
        assert forall|i: int| ks <= i < s.len() implies is_digit(#[trigger] s[i]) by {
            if i < s.len() - 1 {
                assert(is_digit(s.drop_last()[i]));
                assert(s.drop_last()[i] == s[i]);
            }
        }
        if ks > 0 {
            assert(!is_digit(s.drop_last()[ks - 1]));
            assert(s.drop_last()[ks - 1] == s[ks - 1]);
        }
    }
}

fn char_is_digit(c: char) -> (b: bool)
    ensures
        b == is_digit(c),
{
    let x = c as u32;
    48 <= x && x <= 57
}

fn digit_str(d: u32) -> (s: &'static str)
    requires
        d < 10,
    ensures
        s@ =~= seq![digit_char(d as int)],
{
    proof {
        reveal_strlit("0");
        reveal_strlit("1");
        reveal_strlit("2");
        reveal_strlit("3");
        reveal_strlit("4");
        reveal_strlit("5");
        reveal_strlit("6");
        reveal_strlit("7");
        reveal_strlit("8");
        reveal_strlit("9");
    }
    match d {
        0 => "0",
        1 => "1",
        2 => "2",
        3 => "3",
        4 => "4",
        5 => "5",
        6 => "6",
        7 => "7",
        8 => "8",
        _ => "9",
    }
}

/// Renders `x` in decimal.
pub fn u32_to_dec(x: u32) -> (s: String)
    ensures
        s@ == dec_chars(x as int),
    decreases x,
{
    if x < 10 {
        String::from_str(digit_str(x))
    } else {
        let mut s = u32_to_dec(x / 10);
        s.append(digit_str(x % 10));
        s
    }
}

/// Result of looking at an image name for a tile-sheet marker.
pub enum TileNameParse {
    /// No `_t<digits>` suffix: a plain sprite.
    NotTiled,
    /// A tile sheet with the given base name and tile edge length.
    Tiled { base: String, tile_width: u32 },
    /// A `_t<digits>` suffix whose value does not fit `u32`.
    TooLarge,
}

proof fn lemma_digits_val_nonneg(s: Seq<char>)
    requires
        all_digits(s),
    ensures
        digits_val(s) >= 0,
    decreases s.len(),
{
    if s.len() > 0 {
        assert(all_digits(s.drop_last())) by {
            assert(forall|i: int|
                0 <= i < s.len() - 1 ==> s.drop_last()[i] == #[trigger] s[i]);
        }
        lemma_digits_val_nonneg(s.drop_last());
    }
}

proof fn lemma_digits_val_prefix_le(s: Seq<char>, i: int)
    requires
        all_digits(s),
        0 <= i <= s.len(),
    ensures
        digits_val(s.subrange(0, i)) <= digits_val(s),
    decreases s.len() - i,
{
    if i < s.len() {
        lemma_digits_val_prefix_le(s, i + 1);
        let p = s.subrange(0, i);
        let q = s.subrange(0, i + 1);
        assert(q.drop_last() =~= p);
        assert(q.last() == s[i]);
        assert(all_digits(p)) by {
            assert(forall|t: int| 0 <= t < i ==> p[t] == #[trigger] s[t]);
        }
        lemma_digits_val_nonneg(p);
        assert(digits_val(q) == digits_val(p) * 10 + digit_val(s[i]));
        assert(digit_val(s[i]) >= 0);
    } else {
        assert(s.subrange(0, i) =~= s);
    }
}

/// Parses an image name: a `_t<digits>` suffix marks a tile sheet whose
/// tile edge length is the decimal value of the digits.
pub fn parse_tile_name(name: &String) -> (r: TileNameParse)
    ensures
        match r {
            TileNameParse::NotTiled => tile_parse(name@) is Plain,
            TileNameParse::Tiled { base, tile_width } => {
                &&& tile_parse(name@) matches TileParse::Tiled { base: b, value: v }
                    && b == base@ && v == tile_width as int
            },
            TileNameParse::TooLarge => {
                &&& tile_parse(name@) matches TileParse::Tiled { base: b, value: v } && v
                    > u32::MAX
            },
        },
{
    let ghost s = name@;
    proof {
        lemma_digit_suffix_start(s);
    }
    let len = name.as_str().unicode_len();
    let mut k: usize = len;
    while k > 0 && char_is_digit(name.as_str().get_char(k - 1))
        invariant
            0 <= k <= len,
            len == s.len(),
            s == name@,
            forall|i: int| k <= i < len ==> is_digit(#[trigger] s[i]),
        decreases k,
    {
        k = k - 1;
    }
    proof {
        // k is exactly the start of the longest all-digit suffix
        let ks = digit_suffix_start(s);
        if k > 0 {
            assert(!is_digit(s[k as int - 1]));
            if ks < k as int {
                assert(is_digit(s[k as int - 1]));
            }
        }
        if ks > k as int {
            assert(!is_digit(s[ks - 1]));
            assert(is_digit(s[ks - 1]));
        }
        assert(ks == k as int);
    }
    if !(k < len && k >= 2) {
        return TileNameParse::NotTiled;
    }
    let c1 = name.as_str().get_char(k - 2);
    let c2 = name.as_str().get_char(k - 1);
    proof {
        reveal_strlit("_");
        reveal_strlit("t");
    }
    if !(c1 == '_' && c2 == 't') {
        return TileNameParse::NotTiled;
    }
    let ghost digits = s.subrange(k as int, s.len() as int);
    proof {
        assert(all_digits(digits)) by {
            assert(forall|i: int|
                0 <= i < digits.len() ==> digits[i] == #[trigger] s[i + k]);
        }
    }
    let mut acc: u64 = 0;
    let mut i: usize = k;
    while i < len
        invariant
            k <= i <= len,
            len == s.len(),
            s == name@,
            k as int == digit_suffix_start(s),
            2 <= k < len,
            s[k as int - 2] == '_',
            s[k as int - 1] == 't',
            digits == s.subrange(k as int, s.len() as int),
            all_digits(digits),
            forall|t: int| k <= t < len ==> is_digit(#[trigger] s[t]),
            acc <= 0xFFFF_FFFFu64,
            acc == digits_val(s.subrange(k as int, i as int)),
        decreases len - i,
    {
        let c = name.as_str().get_char(i);
        let d = (c as u32) - 48;
        proof {
            assert(is_digit(s[i as int]));
            assert(d == digit_val(s[i as int]));
            let p = s.subrange(k as int, i as int + 1);
            assert(p.drop_last() =~= s.subrange(k as int, i as int));
            assert(p.last() == s[i as int]);
        }
        let next: u64 = acc * 10 + (d as u64);
        if next > 0xFFFF_FFFFu64 {
            proof {
                let p = s.subrange(k as int, i as int + 1);
                assert(digits_val(p) == next);
                assert(p =~= digits.subrange(0, i as int + 1 - k));
                lemma_digits_val_prefix_le(digits, i as int + 1 - k);
                assert(digits_val(digits) >= next);
                assert(k as int == digit_suffix_start(s));
                assert((k as int) < s.len() && k >= 2 && s[k as int - 2] == '_' && s[k as int
                    - 1] == 't');
                assert(tile_parse(s) matches TileParse::Tiled { base: b, value: v } && v
                    == digits_val(digits));
            }
            return TileNameParse::TooLarge;
        }
        acc = next;
        i = i + 1;
    }
    proof {
        assert(s.subrange(k as int, len as int) == digits);
    }
    let base = String::from_str(name.as_str().substring_char(0, k - 2));
    TileNameParse::Tiled { base, tile_width: acc as u32 }
}

// ---- splitting a tile sheet into its non-empty tiles ----

/// Name of the tile at tile-grid position `(tr, tc)`: `<base>R<tr>C<tc>`.
pub open spec fn tile_name(base: Seq<char>, tr: int, tc: int) -> Seq<char> {
    base + seq!['R'] + dec_chars(tr) + seq!['C'] + dec_chars(tc)
}

/// The `n x n` pixel cell at tile-grid position `(tr, tc)`.
pub open spec fn tile_cell(v: PixelGrid, n: int, tr: int, tc: int) -> PixelGrid {
    crop_spec(v, tr * n, tc * n, n, n)
}

/// The non-empty tiles of tile row `tr`, from tile column `tc` on.
pub open spec fn tiles_row_from(
    v: PixelGrid,
    n: int,
    base: Seq<char>,
    tr: int,
    tc: int,
    cols: int,
) -> Seq<(Seq<char>, PixelGrid)>
    decreases cols - tc,
{
    if tc < 0 || tc >= cols {
        Seq::empty()
    } else {
        let cell = tile_cell(v, n, tr, tc);
        let rest = tiles_row_from(v, n, base, tr, tc + 1, cols);
        if has_opaque(cell, n, n) {
            seq![(tile_name(base, tr, tc), cell)] + rest
        } else {
            rest
        }
    }
}

/// The non-empty tiles from tile row `tr` on, in row-major order.
pub open spec fn tiles_from(
    v: PixelGrid,
    n: int,
    base: Seq<char>,
    tr: int,
    rows: int,
    cols: int,
) -> Seq<(Seq<char>, PixelGrid)>
    decreases rows - tr,
{
    if tr < 0 || tr >= rows {
        Seq::empty()
    } else {
        tiles_row_from(v, n, base, tr, 0, cols) + tiles_from(v, n, base, tr + 1, rows, cols)
    }
}

/// Named images correspond, pairwise, to named pixel grids of tile edge
/// `n`.
pub open spec fn pairs_match(
    out: Seq<(String, Image)>,
    tiles: Seq<(Seq<char>, PixelGrid)>,
    n: int,
) -> bool {
    &&& out.len() == tiles.len()
    &&& forall|i: int|
        0 <= i < out.len() ==> {
            &&& (#[trigger] out[i]).0@ == tiles[i].0
            &&& out[i].1@ == tiles[i].1
            &&& out[i].1.wf()
            &&& out[i].1.spec_height() == n
            &&& out[i].1.spec_width() == n
        }
}

proof fn lemma_tile_bound(tr: int, rows: int, n: int, h: int)
    by (nonlinear_arith)
    requires
        0 <= tr < rows,
        1 <= n,
        h == n * rows,
    ensures
        0 <= tr * n,
        tr * n + n <= h,
{
}

/// The whole image holds an opaque pixel somewhere.
pub fn image_has_opaque(im: &Image) -> (b: bool)
    requires
        im.wf(),
    ensures
        b == has_opaque(im@, im.spec_height() as int, im.spec_width() as int),
{
    let h = im.height();
    let mut r: u32 = 0;
    while r < h
        invariant
            r <= h,
            im.wf(),
            h == im.spec_height(),
            forall|rr: int|
                0 <= rr < r ==> !(#[trigger] row_has_opaque(im@, im.spec_width() as int, rr)),
        decreases h - r,
    {
        if row_is_opaque(im, r) {
            return true;
        }
        r = r + 1;
    }
    false
}

/// Splits a tile sheet into one named image per non-empty `n x n` cell,
/// in row-major order, each named `<base>R<row>C<col>` with zero-based
/// indices; fully transparent cells are dropped. An image whose name has
/// no tile marker passes through unchanged. Fails when the tile width is
/// zero or out of range, or does not divide both image dimensions.
pub fn split_tiled_image(name: String, image: Image) -> (r: Result<
    Vec<(String, Image)>,
    BuildError,
>)
    requires
        image.wf(),
    ensures
        ({
            let h = image.spec_height() as int;
            let w = image.spec_width() as int;
            match tile_parse(name@) {
                TileParse::Plain => r matches Ok(out) && out@.len() == 1 && out@[0].0@ == name@
                    && out@[0].1@ == image@ && out@[0].1.wf() && out@[0].1.spec_height()
                    == image.spec_height() && out@[0].1.spec_width() == image.spec_width(),
                TileParse::Tiled { base, value } => {
                    if value <= 0 || value > u32::MAX {
                        r == Err::<Vec<(String, Image)>, BuildError>(BuildError::InvalidTileWidth)
                    } else if h % value != 0 || w % value != 0 {
                        r == Err::<Vec<(String, Image)>, BuildError>(
                            BuildError::NonDivisibleTileDims,
                        )
                    } else {
                        r matches Ok(out) && pairs_match(
                            out@,
                            tiles_from(image@, value, base, 0, h / value, w / value),
                            value,
                        )
                    }
                },
            }
        }),
{
    let parsed = parse_tile_name(&name);
    match parsed {
        TileNameParse::NotTiled => {
            let mut out: Vec<(String, Image)> = Vec::new();
            out.push((name, image));
            Ok(out)
        },
        TileNameParse::TooLarge => Err(BuildError::InvalidTileWidth),
        TileNameParse::Tiled { base, tile_width } => {
            let ghost bs = base@;
            let ghost v = image@;
            if tile_width == 0 {
                return Err(BuildError::InvalidTileWidth);
            }
            let n = tile_width;
            let h = image.height();
            let w = image.width();
            if h % n != 0 || w % n != 0 {
                return Err(BuildError::NonDivisibleTileDims);
            }
            let rows = h / n;
            let cols = w / n;
            proof {
                lemma_fundamental_div_mod(h as int, n as int);
                lemma_fundamental_div_mod(w as int, n as int);
                image.lemma_wf_dims();
            }
            let ghost full = tiles_from(v, n as int, bs, 0, rows as int, cols as int);
            let mut out: Vec<(String, Image)> = Vec::new();
            let ghost done: Seq<(Seq<char>, PixelGrid)> = Seq::empty();
            let mut done = Ghost(done);
            proof {
                assert(done@ + tiles_from(v, n as int, bs, 0, rows as int, cols as int) =~= full);
            }
            let mut tr: u32 = 0;
            while tr < rows
                invariant
                    tr <= rows,
                    image.wf(),
                    v == image@,
                    bs == base@,
                    h == image.spec_height(),
                    w == image.spec_width(),
                    h == n as int * rows as int,
                    w == n as int * cols as int,
                    1 <= n,
                    full == tiles_from(v, n as int, bs, 0, rows as int, cols as int),
                    pairs_match(out@, done@, n as int),
                    done@ + tiles_from(v, n as int, bs, tr as int, rows as int, cols as int)
                        == full,
                decreases rows - tr,
            {
                proof {
                    assert(tiles_from(v, n as int, bs, tr as int, rows as int, cols as int)
                        == tiles_row_from(v, n as int, bs, tr as int, 0, cols as int)
                        + tiles_from(v, n as int, bs, tr as int + 1, rows as int, cols as int));
                }
                let mut tc: u32 = 0;
                while tc < cols
                    invariant
                        tc <= cols,
                        tr < rows,
                        image.wf(),
                        v == image@,
                        bs == base@,
                        h == image.spec_height(),
                        w == image.spec_width(),
                        h == n as int * rows as int,
                        w == n as int * cols as int,
                        1 <= n,
                        full == tiles_from(v, n as int, bs, 0, rows as int, cols as int),
                        pairs_match(out@, done@, n as int),
                        done@ + (tiles_row_from(v, n as int, bs, tr as int, tc as int, cols as int)
                            + tiles_from(
                            v,
                            n as int,
                            bs,
                            tr as int + 1,
                            rows as int,
                            cols as int,
                        )) == full,
                    decreases cols - tc,
                {
                    proof {
                        lemma_tile_bound(tr as int, rows as int, n as int, h as int);
                        lemma_tile_bound(tc as int, cols as int, n as int, w as int);
                    }
                    let rect = Rect { pos: (tr * n, tc * n), dims: (n, n) };
                    let cell = crop(&image, rect);
                    let ghost cellv = tile_cell(v, n as int, tr as int, tc as int);
                    proof {
                        assert(cell@ == cellv);
                    }
                    if image_has_opaque(&cell) {
                        let mut nm = String::from_str(base.as_str());
                        nm.append("R");
                        let dtr = u32_to_dec(tr);
                        nm.append(dtr.as_str());
                        nm.append("C");
                        let dtc = u32_to_dec(tc);
                        nm.append(dtc.as_str());
                        proof {
                            reveal_strlit("R");
                            reveal_strlit("C");
                            assert("R"@ =~= seq!['R']);
                            assert("C"@ =~= seq!['C']);
                            assert(nm@ =~= tile_name(bs, tr as int, tc as int));
                        }
                        out.push((nm, cell));
                        proof {
                            let x = (tile_name(bs, tr as int, tc as int), cellv);
                            let row_rest = tiles_row_from(
                                v,
                                n as int,
                                bs,
                                tr as int,
                                tc as int + 1,
                                cols as int,
                            );
                            let below = tiles_from(
                                v,
                                n as int,
                                bs,
                                tr as int + 1,
                                rows as int,
                                cols as int,
                            );
                            assert(tiles_row_from(v, n as int, bs, tr as int, tc as int, cols as int)
                                == seq![x] + row_rest);
                            assert(done@ + (seq![x] + row_rest + below) =~= (done@ + seq![x]) + (
                            row_rest + below));
                            assert(done@ + ((seq![x] + row_rest) + below) =~= done@ + (seq![x]
                                + row_rest + below));
                            done@ = done@ + seq![x];
                        }
                    } else {
                        proof {
                            assert(tiles_row_from(v, n as int, bs, tr as int, tc as int, cols as int)
                                == tiles_row_from(
                                v,
                                n as int,
                                bs,
                                tr as int,
                                tc as int + 1,
                                cols as int,
                            ));
                        }
                    }
                    tc = tc + 1;
                }
                proof {
                    assert(tiles_row_from(v, n as int, bs, tr as int, cols as int, cols as int)
                        =~= Seq::<(Seq<char>, PixelGrid)>::empty());
                    assert(Seq::<(Seq<char>, PixelGrid)>::empty() + tiles_from(
                        v,
                        n as int,
                        bs,
                        tr as int + 1,
                        rows as int,
                        cols as int,
                    ) =~= tiles_from(v, n as int, bs, tr as int + 1, rows as int, cols as int));
                }
                tr = tr + 1;
            }
            proof {
                assert(tiles_from(v, n as int, bs, rows as int, rows as int, cols as int)
                    =~= Seq::<(Seq<char>, PixelGrid)>::empty());
                assert(done@ + Seq::<(Seq<char>, PixelGrid)>::empty() =~= done@);
            }
            Ok(out)
        },
    }
}

/// Decimal renderings hold only digit characters.
pub proof fn lemma_dec_chars_digits(x: int)
    ensures
        forall|i: int|
            0 <= i < dec_chars(x).len() ==> is_digit(#[trigger] dec_chars(x)[i]),
    decreases x,
{
    if x >= 10 {
        lemma_dec_chars_digits(x / 10);
        let r = dec_chars(x);
        assert forall|i: int| 0 <= i < r.len() implies is_digit(#[trigger] r[i]) by {
            if i < dec_chars(x / 10).len() {
                assert(r[i] == dec_chars(x / 10)[i]);
            } else {
                assert(r[i] == digit_char(x % 10));
            }
        }
    }
}

/// Every image produced by a tile split holds an opaque pixel.
pub proof fn lemma_tiles_row_nonempty(
    v: PixelGrid,
    n: int,
    base: Seq<char>,
    tr: int,
    tc: int,
    cols: int,
)
    ensures
        forall|t: int|
            0 <= t < tiles_row_from(v, n, base, tr, tc, cols).len() ==> has_opaque(
                (#[trigger] tiles_row_from(v, n, base, tr, tc, cols)[t]).1,
                n,
                n,
            ),
    decreases cols - tc,
{
    if !(tc < 0 || tc >= cols) {
        lemma_tiles_row_nonempty(v, n, base, tr, tc + 1, cols);
        let cell = tile_cell(v, n, tr, tc);
        let rest = tiles_row_from(v, n, base, tr, tc + 1, cols);
        let r = tiles_row_from(v, n, base, tr, tc, cols);
        if has_opaque(cell, n, n) {
            assert forall|t: int| 0 <= t < r.len() implies has_opaque((#[trigger] r[t]).1, n, n) by {
                if t > 0 {
                    assert(r[t] == rest[t - 1]);
                }
            }
        }
    }
}

/// Every image produced by a tile split holds an opaque pixel.
pub proof fn lemma_tiles_from_nonempty(
    v: PixelGrid,
    n: int,
    base: Seq<char>,
    tr: int,
    rows: int,
    cols: int,
)
    ensures
        forall|t: int|
            0 <= t < tiles_from(v, n, base, tr, rows, cols).len() ==> has_opaque(
                (#[trigger] tiles_from(v, n, base, tr, rows, cols)[t]).1,
                n,
                n,
            ),
    decreases rows - tr,
{
    if !(tr < 0 || tr >= rows) {
        lemma_tiles_from_nonempty(v, n, base, tr + 1, rows, cols);
        lemma_tiles_row_nonempty(v, n, base, tr, 0, cols);
        let row = tiles_row_from(v, n, base, tr, 0, cols);
        let rest = tiles_from(v, n, base, tr + 1, rows, cols);
        let r = tiles_from(v, n, base, tr, rows, cols);
        assert forall|t: int| 0 <= t < r.len() implies has_opaque((#[trigger] r[t]).1, n, n) by {
            if t < row.len() {
                assert(r[t] == row[t]);
            } else {
                assert(r[t] == rest[t - row.len()]);
            }
        }
    }
}

/// Tile names built from an ASCII base are ASCII.
pub proof fn lemma_tile_name_ascii(base: Seq<char>, tr: int, tc: int)
    requires
        forall|i: int| 0 <= i < base.len() ==> '\0' <= #[trigger] base[i] <= '\u{7f}',
        tr >= 0,
        tc >= 0,
    ensures
        forall|i: int|
            0 <= i < tile_name(base, tr, tc).len() ==> '\0' <= #[trigger] tile_name(
                base,
                tr,
                tc,
            )[i] <= '\u{7f}',
{
    lemma_dec_chars_digits(tr);
    lemma_dec_chars_digits(tc);
    let nm = tile_name(base, tr, tc);
    let dtr = dec_chars(tr);
    let dtc = dec_chars(tc);
    assert forall|i: int| 0 <= i < nm.len() implies '\0' <= #[trigger] nm[i] <= '\u{7f}' by {
        if i < base.len() {
            assert(nm[i] == base[i]);
        } else if i < base.len() + 1 {
            assert(nm[i] == 'R');
        } else if i < base.len() + 1 + dtr.len() {
            assert(nm[i] == dtr[i - base.len() - 1]);
            assert(is_digit(dtr[i - base.len() - 1]));
        } else if i < base.len() + 1 + dtr.len() + 1 {
            assert(nm[i] == 'C');
        } else {
            assert(nm[i] == dtc[i - base.len() - 1 - dtr.len() - 1]);
            assert(is_digit(dtc[i - base.len() - 1 - dtr.len() - 1]));
        }
    }
}

/// Names in one tile row come from `tile_name` over the ASCII base.
pub proof fn lemma_tiles_row_names_ascii(
    v: PixelGrid,
    n: int,
    base: Seq<char>,
    tr: int,
    tc: int,
    cols: int,
)
    requires
        forall|k: int| 0 <= k < base.len() ==> '\0' <= #[trigger] base[k] <= '\u{7f}',
        tr >= 0,
        tc >= 0,
    ensures
        forall|t: int, k: int|
            0 <= t < tiles_row_from(v, n, base, tr, tc, cols).len() && 0 <= k < (
            #[trigger] tiles_row_from(v, n, base, tr, tc, cols)[t]).0.len() ==> '\0'
                <= #[trigger] tiles_row_from(v, n, base, tr, tc, cols)[t].0[k] <= '\u{7f}',
    decreases cols - tc,
{
    if !(tc < 0 || tc >= cols) {
        lemma_tiles_row_names_ascii(v, n, base, tr, tc + 1, cols);
        lemma_tile_name_ascii(base, tr, tc);
        let cell = tile_cell(v, n, tr, tc);
        let rest = tiles_row_from(v, n, base, tr, tc + 1, cols);
        let r = tiles_row_from(v, n, base, tr, tc, cols);
        assert forall|t: int, k: int|
            0 <= t < r.len() && 0 <= k < (#[trigger] r[t]).0.len() implies '\0'
            <= #[trigger] r[t].0[k] <= '\u{7f}' by {
            if has_opaque(cell, n, n) {
                if t > 0 {
                    assert(r[t] == rest[t - 1]);
                } else {
                    assert(r[t].0 == tile_name(base, tr, tc));
                }
            }
        }
    }
}

/// Every tile name is ASCII when the base name is.
pub proof fn lemma_tiles_names_ascii(
    v: PixelGrid,
    n: int,
    base: Seq<char>,
    tr: int,
    rows: int,
    cols: int,
)
    requires
        forall|k: int| 0 <= k < base.len() ==> '\0' <= #[trigger] base[k] <= '\u{7f}',
        tr >= 0,
    ensures
        forall|t: int, k: int|
            0 <= t < tiles_from(v, n, base, tr, rows, cols).len() && 0 <= k < (
            #[trigger] tiles_from(v, n, base, tr, rows, cols)[t]).0.len() ==> '\0'
                <= #[trigger] tiles_from(v, n, base, tr, rows, cols)[t].0[k] <= '\u{7f}',
    decreases rows - tr,
{
    if !(tr < 0 || tr >= rows) {
        lemma_tiles_names_ascii(v, n, base, tr + 1, rows, cols);
        lemma_tiles_row_names_ascii(v, n, base, tr, 0, cols);
        let row = tiles_row_from(v, n, base, tr, 0, cols);
        let rest = tiles_from(v, n, base, tr + 1, rows, cols);
        let r = tiles_from(v, n, base, tr, rows, cols);
        assert forall|t: int, k: int|
            0 <= t < r.len() && 0 <= k < (#[trigger] r[t]).0.len() implies '\0'
            <= #[trigger] r[t].0[k] <= '\u{7f}' by {
            if t < row.len() {
                assert(r[t] == row[t]);
            } else {
                assert(r[t] == rest[t - row.len()]);
            }
        }
    }
}

// ---- the split sub-image list, as a function of the inputs ----

/// What one sub-image is, independent of any particular `String` or
/// `Image` value: its name, its pixels, and its dimensions.
pub struct SubImage {
    pub name: Seq<char>,
    pub pixels: PixelGrid,
    pub height: int,
    pub width: int,
}

/// The sub-image a named image denotes.
pub open spec fn sub_view(p: (String, Image)) -> SubImage {
    SubImage {
        name: p.0@,
        pixels: p.1@,
        height: p.1.spec_height() as int,
        width: p.1.spec_width() as int,
    }
}

/// Named images and sub-images correspond, index for index.
pub open spec fn subs_match(out: Seq<(String, Image)>, subs: Seq<SubImage>) -> bool {
    &&& out.len() == subs.len()
    &&& forall|k: int| 0 <= k < out.len() ==> sub_view(#[trigger] out[k]) == subs[k]
}

/// The sub-images one input image contributes: itself when its name has
/// no tile marker, else its non-empty tiles in row-major order.
pub open spec fn split_one(p: (String, Image)) -> Seq<SubImage> {
    match tile_parse(p.0@) {
        TileParse::Plain => seq![sub_view(p)],
        TileParse::Tiled { base, value } => tiles_from(
            p.1@,
            value,
            base,
            0,
            p.1.spec_height() as int / value,
            p.1.spec_width() as int / value,
        ).map_values(
            |t: (Seq<char>, PixelGrid)|
                SubImage { name: t.0, pixels: t.1, height: value, width: value },
        ),
    }
}

/// The flattened sub-image list of the whole input set, in input order.
pub open spec fn split_all(images: Seq<(String, Image)>) -> Seq<SubImage>
    decreases images.len(),
{
    if images.len() == 0 {
        Seq::empty()
    } else {
        split_one(images[0]) + split_all(images.drop_first())
    }
}

pub proof fn lemma_split_all_push(s: Seq<(String, Image)>, x: (String, Image))
    ensures
        split_all(s.push(x)) == split_all(s) + split_one(x),
    decreases s.len(),
{
    if s.len() == 0 {
        assert(s.push(x)[0] == x);
        assert(s.push(x).drop_first() =~= Seq::<(String, Image)>::empty());
        assert(split_one(x) + split_all(Seq::empty()) =~= split_all(s) + split_one(x));
    } else {
        assert(s.push(x)[0] == s[0]);
        assert(s.push(x).drop_first() =~= s.drop_first().push(x));
        lemma_split_all_push(s.drop_first(), x);
        assert(split_one(s[0]) + (split_all(s.drop_first()) + split_one(x)) =~= (split_one(
            s[0],
        ) + split_all(s.drop_first())) + split_one(x));
    }
}

// ---- sorting sub-images by name, and counting duplicate names ----

/// Stable insertion of a sub-image into a list sorted ascending by name.
pub open spec fn insert_subs(s: Seq<SubImage>, x: SubImage) -> Seq<SubImage>
    decreases s.len(),
{
    if s.len() == 0 {
        seq![x]
    } else if spec_str_lt(x.name, s.last().name) {
        insert_subs(s.drop_last(), x).push(s.last())
    } else {
        s.push(x)
    }
}

/// Insertion sort of sub-images, ascending by name: the order the
/// pipeline packs and serializes them in.
pub open spec fn sort_subs(s: Seq<SubImage>) -> Seq<SubImage>
    decreases s.len(),
{
    if s.len() == 0 {
        s
    } else {
        insert_subs(sort_subs(s.drop_last()), s.last())
    }
}

/// One when the sub-image carries name `nm`, else zero.
pub open spec fn ind_name(x: SubImage, nm: Seq<char>) -> int {
    if x.name == nm {
        1
    } else {
        0
    }
}

/// How many sub-images carry name `nm`.
pub open spec fn name_count(s: Seq<SubImage>, nm: Seq<char>) -> int
    decreases s.len(),
{
    if s.len() == 0 {
        0
    } else {
        name_count(s.drop_last(), nm) + ind_name(s.last(), nm)
    }
}

/// Two distinct sub-images share a name.
pub open spec fn has_dup_names(s: Seq<SubImage>) -> bool {
    exists|i: int, j: int|
        0 <= i < j < s.len() && (#[trigger] s[i]).name == (#[trigger] s[j]).name
}

proof fn lemma_insert_subs_len(s: Seq<SubImage>, x: SubImage)
    ensures
        insert_subs(s, x).len() == s.len() + 1,
    decreases s.len(),
{
    if s.len() > 0 && spec_str_lt(x.name, s.last().name) {
        lemma_insert_subs_len(s.drop_last(), x);
    }
}

pub proof fn lemma_sort_subs_len(s: Seq<SubImage>)
    ensures
        sort_subs(s).len() == s.len(),
    decreases s.len(),
{
    if s.len() > 0 {
        lemma_sort_subs_len(s.drop_last());
        lemma_insert_subs_len(sort_subs(s.drop_last()), s.last());
    }
}

proof fn lemma_insert_subs_count(s: Seq<SubImage>, x: SubImage, nm: Seq<char>)
    ensures
        name_count(insert_subs(s, x), nm) == name_count(s, nm) + ind_name(x, nm),
    decreases s.len(),
{
    if s.len() == 0 {
        assert(insert_subs(s, x) =~= seq![x]);
        assert(insert_subs(s, x).drop_last() =~= Seq::<SubImage>::empty());
        assert(insert_subs(s, x).last() == x);
        assert(name_count(Seq::<SubImage>::empty(), nm) == 0);
    } else if spec_str_lt(x.name, s.last().name) {
        lemma_insert_subs_count(s.drop_last(), x, nm);
        lemma_insert_subs_len(s.drop_last(), x);
        let r = insert_subs(s.drop_last(), x).push(s.last());
        assert(r.drop_last() =~= insert_subs(s.drop_last(), x));
        assert(r.last() == s.last());
    } else {
        let r = s.push(x);
        assert(r.drop_last() =~= s);
        assert(r.last() == x);
    }
}

/// Sorting keeps every name's multiplicity.
pub proof fn lemma_sort_subs_count(s: Seq<SubImage>, nm: Seq<char>)
    ensures
        name_count(sort_subs(s), nm) == name_count(s, nm),
    decreases s.len(),
{
    if s.len() > 0 {
        lemma_sort_subs_count(s.drop_last(), nm);
        lemma_insert_subs_count(sort_subs(s.drop_last()), s.last(), nm);
    }
}

proof fn lemma_name_count_nonneg(s: Seq<SubImage>, nm: Seq<char>)
    ensures
        0 <= name_count(s, nm) <= s.len(),
    decreases s.len(),
{
    if s.len() > 0 {
        lemma_name_count_nonneg(s.drop_last(), nm);
    }
}

proof fn lemma_one_name_count(s: Seq<SubImage>, nm: Seq<char>, i: int)
    requires
        0 <= i < s.len(),
        s[i].name == nm,
    ensures
        name_count(s, nm) >= 1,
    decreases s.len(),
{
    lemma_name_count_nonneg(s.drop_last(), nm);
    if i < s.len() - 1 {
        lemma_one_name_count(s.drop_last(), nm, i);
    }
}

/// A name shared by two positions counts at least twice.
pub proof fn lemma_two_names_count(s: Seq<SubImage>, nm: Seq<char>, i: int, j: int)
    requires
        0 <= i < j < s.len(),
        s[i].name == nm,
        s[j].name == nm,
    ensures
        name_count(s, nm) >= 2,
    decreases s.len(),
{
    lemma_name_count_nonneg(s.drop_last(), nm);
    if j == s.len() - 1 {
        lemma_one_name_count(s.drop_last(), nm, i);
    } else {
        lemma_two_names_count(s.drop_last(), nm, i, j);
    }
}

proof fn lemma_count_one_exists(s: Seq<SubImage>, nm: Seq<char>)
    requires
        name_count(s, nm) >= 1,
    ensures
        exists|i: int| 0 <= i < s.len() && (#[trigger] s[i]).name == nm,
    decreases s.len(),
{
    if s.len() > 0 {
        if s.last().name == nm {
            assert(s[s.len() - 1].name == nm);
        } else {
            lemma_count_one_exists(s.drop_last(), nm);
            let i = choose|i: int|
                0 <= i < s.drop_last().len() && (#[trigger] s.drop_last()[i]).name == nm;
            assert(s[i].name == nm);
        }
    }
}

/// A name that counts twice sits at two distinct positions.
pub proof fn lemma_count_two_pair(s: Seq<SubImage>, nm: Seq<char>)
    requires
        name_count(s, nm) >= 2,
    ensures
        exists|i: int, j: int|
            0 <= i < j < s.len() && (#[trigger] s[i]).name == nm && (#[trigger] s[j]).name
                == nm,
    decreases s.len(),
{
    lemma_name_count_nonneg(s.drop_last(), nm);
    if s.last().name == nm {
        lemma_count_one_exists(s.drop_last(), nm);
        let i = choose|i: int|
            0 <= i < s.drop_last().len() && (#[trigger] s.drop_last()[i]).name == nm;
        assert(s[i].name == nm && s[s.len() - 1].name == nm);
    } else {
        lemma_count_two_pair(s.drop_last(), nm);
        let (i, j) = choose|i: int, j: int|
            0 <= i < j < s.drop_last().len() && (#[trigger] s.drop_last()[i]).name == nm && (
            #[trigger] s.drop_last()[j]).name == nm;
        assert(s[i].name == nm && s[j].name == nm);
    }
}

} // verus!
