//! Atlas formation: compositing packed sprites into one image and
//! serializing the region table into the binary atlas format.

use vstd::prelude::*;
use crate::codec::{be_u16_int, be_i16_int, write_u16_be, write_i16_be};
use crate::image::{Image, Pixel, PixelGrid, MAX_IMAGE_DIM};
use crate::preprocess::{trim, trim_spec, has_opaque, split_tiled_image, tile_parse, TileParse, lemma_tiles_from_nonempty, SubImage, sub_view, subs_match, split_one, split_all, lemma_split_all_push, insert_subs, sort_subs, lemma_sort_subs_len, lemma_sort_subs_count, lemma_two_names_count, lemma_count_two_pair, has_dup_names};
use crate::names::{spec_str_lt, spec_str_le, str_lt, sorted_by_name, sort_images_by_name, insert_by_name, sort_by_name, lemma_sort_by_name_len, lemma_sort_by_name_elems, lemma_sort_by_name_elems_rev, lemma_sort_by_name_sorted, lemma_str_lt_trans, seq_has_pair};
use crate::rect_packer::{Rect, Pack, pack_spec, rect_in_bounds, rects_disjoint, in_rect, max2};
use crate::BuildError;

verus! {

broadcast use crate::image::Image::lemma_view_shape;

/// Maximum height or width of a sprite atlas bin.
pub const ATLAS_MAX_DIM: u32 = 512;

/// Largest pad the pipeline accepts: keeps every padded trim dimension
/// within `u32`. Pads above `255` cannot fit any rectangle into the
/// `ATLAS_MAX_DIM` bin and fail with the capacity error.
pub const MAX_PAD: u32 = 1_073_741_823;

/// Where one packed sprite lives: its rectangle in the atlas, the trim
/// rectangle within the original image, and the original image size
/// (which fixes the anchor, the center of the untrimmed image).
#[derive(Debug, Copy, Clone, PartialEq, Eq)]
pub struct AtlasRegion {
    pub atlas_rect: Rect,
    pub raw_sprite_rect: Rect,
    pub raw_sprite_dims: (u32, u32),
}

impl AtlasRegion {
    /// Bounds under which the 12-byte binary record is exact: atlas
    /// coordinates within `4096` and raw image dimensions within
    /// `MAX_IMAGE_DIM` keep every field inside `u16`/`i16` range.
    pub open spec fn wf(&self) -> bool {
        &&& self.atlas_rect.pos.0 + self.atlas_rect.dims.0 <= 4096
        &&& self.atlas_rect.pos.1 + self.atlas_rect.dims.1 <= 4096
        &&& self.raw_sprite_dims.0 <= MAX_IMAGE_DIM
        &&& self.raw_sprite_dims.1 <= MAX_IMAGE_DIM
        &&& self.raw_sprite_rect.pos.0 <= self.raw_sprite_dims.0
        &&& self.raw_sprite_rect.pos.1 <= self.raw_sprite_dims.1
    }

    /// Doubled anchor coordinates `(x*2, y*2)`: twice the atlas position
    /// plus the untrimmed size minus twice the trim offset, which places
    /// the anchor at the center of the original image in atlas pixels.
    pub open spec fn anchor_x2(&self) -> (int, int) {
        (
            2 * self.atlas_rect.pos.1 + self.raw_sprite_dims.1 - 2 * self.raw_sprite_rect.pos.1,
            2 * self.atlas_rect.pos.0 + self.raw_sprite_dims.0 - 2 * self.raw_sprite_rect.pos.0,
        )
    }
}

/// The 12-byte binary record of one region: left, top, right, bottom as
/// big-endian `u16`, then the doubled anchor x and y as big-endian `i16`.
pub open spec fn region_bytes(rg: AtlasRegion) -> Seq<u8> {
    let ltx = rg.atlas_rect.pos.1 as int;
    let lty = rg.atlas_rect.pos.0 as int;
    let rbx = ltx + rg.atlas_rect.dims.1;
    let rby = lty + rg.atlas_rect.dims.0;
    be_u16_int(ltx) + be_u16_int(lty) + be_u16_int(rbx) + be_u16_int(rby) + be_i16_int(
        rg.anchor_x2().0,
    ) + be_i16_int(rg.anchor_x2().1)
}

impl AtlasRegion {
    /// Appends this region's 12-byte binary record to `out`.
    pub fn write_bin(&self, out: &mut Vec<u8>)
        requires
            self.wf(),
        ensures
            final(out)@ == old(out)@ + region_bytes(*self),
    {
        let ltx = self.atlas_rect.pos.1 as u16;
        let lty = self.atlas_rect.pos.0 as u16;
        let rbx = ltx + self.atlas_rect.dims.1 as u16;
        let rby = lty + self.atlas_rect.dims.0 as u16;
        let ax2 = 2 * (self.atlas_rect.pos.1 as i32) + (self.raw_sprite_dims.1 as i32) - 2 * (
        self.raw_sprite_rect.pos.1 as i32);
        let ay2 = 2 * (self.atlas_rect.pos.0 as i32) + (self.raw_sprite_dims.0 as i32) - 2 * (
        self.raw_sprite_rect.pos.0 as i32);
        let ghost start = out@;
        write_u16_be(out, ltx);
        write_u16_be(out, lty);
        write_u16_be(out, rbx);
        write_u16_be(out, rby);
        write_i16_be(out, ax2 as i16);
        write_i16_be(out, ay2 as i16);
        proof {
            assert(ax2 as i16 as int == self.anchor_x2().0);
            assert(ay2 as i16 as int == self.anchor_x2().1);
            assert(out@ =~= start + region_bytes(*self));
        }
    }
}

/// A formed atlas: the composited image and one named region per packed
/// sprite, in sorted-name order.
pub struct Atlas {
    pub regions: Vec<(String, AtlasRegion)>,
    pub image: Image,
}

/// The binary records of `regions` from index `i` on, concatenated.
pub open spec fn regions_bytes_from(regions: Seq<AtlasRegion>, i: int) -> Seq<u8>
    decreases regions.len() - i,
{
    if i < 0 || i >= regions.len() {
        Seq::empty()
    } else {
        region_bytes(regions[i]) + regions_bytes_from(regions, i + 1)
    }
}

/// The whole atlas file: width, height and region count as big-endian
/// `u16`, then each region's 12-byte record in order.
pub open spec fn atlas_bytes(width: int, height: int, regions: Seq<AtlasRegion>) -> Seq<u8> {
    be_u16_int(width) + be_u16_int(height) + be_u16_int(regions.len() as int)
    + regions_bytes_from(regions, 0)
}

impl Atlas {
    /// Every region in bounds for the binary format, and few enough of
    /// them for the 16-bit count; the image no larger than the format's
    /// coordinates can name.
    pub open spec fn wf(&self) -> bool {
        &&& self.image.wf()
        &&& self.image.spec_width() <= 4096
        &&& self.image.spec_height() <= 4096
        &&& self.regions@.len() <= 65535
        &&& forall|i: int| 0 <= i < self.regions@.len() ==> (#[trigger] self.regions@[i]).1.wf()
    }

    /// Serializes the atlas dimensions and the region records into the
    /// binary atlas format, regions in their stored (sorted-name) order.
    #[verifier::rlimit(60)]
    pub fn write_bin(&self) -> (out: Vec<u8>)
        requires
            self.wf(),
        ensures
            out@ == atlas_bytes(
                self.image.spec_width() as int,
                self.image.spec_height() as int,
                self.regions@.map_values(|p: (String, AtlasRegion)| p.1),
            ),
    {
        let ghost regs = self.regions@.map_values(|p: (String, AtlasRegion)| p.1);
        let mut out: Vec<u8> = Vec::new();
        write_u16_be(&mut out, self.image.width() as u16);
        write_u16_be(&mut out, self.image.height() as u16);
        write_u16_be(&mut out, self.regions.len() as u16);
        let ghost header = out@;
        let n = self.regions.len();
        let mut i: usize = 0;
        while i < n
            invariant
                i <= n,
                n == self.regions@.len(),
                regs == self.regions@.map_values(|p: (String, AtlasRegion)| p.1),
                regs.len() == n,
                self.wf(),
                out@ + regions_bytes_from(regs, i as int) == atlas_bytes(
                    self.image.spec_width() as int,
                    self.image.spec_height() as int,
                    regs,
                ),
            decreases n - i,
        {
            let ghost before = out@;
            let region = self.regions[i].1;
            proof {
                assert(region == regs[i as int]);
                assert(region.wf());
            }
            region.write_bin(&mut out);
            proof {
                assert(regions_bytes_from(regs, i as int) == region_bytes(regs[i as int])
                    + regions_bytes_from(regs, i as int + 1));
                assert((before + region_bytes(regs[i as int])) + regions_bytes_from(
                    regs,
                    i as int + 1,
                ) =~= before + (region_bytes(regs[i as int]) + regions_bytes_from(
                    regs,
                    i as int + 1,
                )));
            }
            i = i + 1;
        }
        proof {
            assert(regions_bytes_from(regs, n as int) =~= Seq::<u8>::empty());
            assert(out@ + Seq::<u8>::empty() =~= out@);
        }
        out
    }
}

// ---- compositing ----

/// One color channel scaled by `alpha / 255`, rounded to nearest. The
/// quotient is never exactly halfway, so nearest is unambiguous.
pub open spec fn premul_channel(c: u8, a: u8) -> u8 {
    ((2 * (a as int) * (c as int) + 255) / 510) as u8
}

/// A pixel with its RGB channels premultiplied by its alpha.
pub open spec fn premul_pixel(p: Pixel) -> Pixel {
    (premul_channel(p.0, p.3), premul_channel(p.1, p.3), premul_channel(p.2, p.3), p.3)
}

proof fn lemma_premul_bound(c: int, a: int)
    by (nonlinear_arith)
    requires
        0 <= c <= 255,
        0 <= a <= 255,
    ensures
        0 <= 2 * a * c <= 130_050,
        0 <= (2 * a * c + 255) / 510 <= 255,
{
}

fn premul_channel_exec(c: u8, a: u8) -> (r: u8)
    ensures
        r == premul_channel(c, a),
{
    proof {
        lemma_premul_bound(c as int, a as int);
    }
    ((2 * (a as u32) * (c as u32) + 255) / 510) as u8
}

/// Premultiplies every pixel's RGB channels by its alpha channel,
/// rounding to nearest; the alpha channel itself is unchanged.
pub fn pre_multiply_alpha(image: &mut Image)
    requires
        old(image).wf(),
    ensures
        final(image).wf(),
        final(image).spec_height() == old(image).spec_height(),
        final(image).spec_width() == old(image).spec_width(),
        forall|r: int, c: int|
            0 <= r < old(image).spec_height() && 0 <= c < old(image).spec_width()
                ==> #[trigger] final(image)@[r][c] == premul_pixel(old(image)@[r][c]),
{
    let ghost v0 = old(image)@;
    let h = image.height();
    let w = image.width();
    proof {
        assert(crate::image::image_wf(v0, h as int, w as int));
    }
    let mut r: u32 = 0;
    while r < h
        invariant
            r <= h,
            image.wf(),
            h == image.spec_height(),
            w == image.spec_width(),
            image@.len() == v0.len(),
            v0.len() == h,
            forall|rr: int| 0 <= rr < h ==> (#[trigger] image@[rr]).len() == v0[rr].len(),
            forall|rr: int| 0 <= rr < h ==> (#[trigger] v0[rr]).len() == w,
            forall|rr: int, cc: int|
                0 <= rr < r && 0 <= cc < w ==> #[trigger] image@[rr][cc] == premul_pixel(
                    v0[rr][cc],
                ),
            forall|rr: int, cc: int|
                r <= rr < h && 0 <= cc < w ==> #[trigger] image@[rr][cc] == v0[rr][cc],
        decreases h - r,
    {
        let mut c: u32 = 0;
        while c < w
            invariant
                c <= w,
                r < h,
                image.wf(),
                h == image.spec_height(),
                w == image.spec_width(),
                image@.len() == v0.len(),
                v0.len() == h,
                forall|rr: int| 0 <= rr < h ==> (#[trigger] image@[rr]).len() == v0[rr].len(),
                forall|rr: int| 0 <= rr < h ==> (#[trigger] v0[rr]).len() == w,
                forall|rr: int, cc: int|
                    0 <= rr < r && 0 <= cc < w ==> #[trigger] image@[rr][cc] == premul_pixel(
                        v0[rr][cc],
                    ),
                forall|cc: int|
                    0 <= cc < c ==> #[trigger] image@[r as int][cc] == premul_pixel(
                        v0[r as int][cc],
                    ),
                forall|cc: int|
                    c <= cc < w ==> #[trigger] image@[r as int][cc] == v0[r as int][cc],
                forall|rr: int, cc: int|
                    r < rr < h && 0 <= cc < w ==> #[trigger] image@[rr][cc] == v0[rr][cc],
            decreases w - c,
        {
            let p = image.get_pixel(r, c);
            let q = (
                premul_channel_exec(p.0, p.3),
                premul_channel_exec(p.1, p.3),
                premul_channel_exec(p.2, p.3),
                p.3,
            );
            image.set_pixel(r, c, q);
            c = c + 1;
        }
        r = r + 1;
    }
}

/// Copies the `src_rect` pixels of `sprite` into `atlas` at `dst_rect`;
/// every other atlas pixel is unchanged.
pub fn render_sprite(atlas: &mut Image, sprite: &Image, dst_rect: Rect, src_rect: Rect)
    requires
        old(atlas).wf(),
        sprite.wf(),
        dst_rect.dims == src_rect.dims,
        dst_rect.pos.0 + dst_rect.dims.0 <= old(atlas).spec_height(),
        dst_rect.pos.1 + dst_rect.dims.1 <= old(atlas).spec_width(),
        src_rect.pos.0 + src_rect.dims.0 <= sprite.spec_height(),
        src_rect.pos.1 + src_rect.dims.1 <= sprite.spec_width(),
    ensures
        final(atlas).wf(),
        final(atlas).spec_height() == old(atlas).spec_height(),
        final(atlas).spec_width() == old(atlas).spec_width(),
        forall|r: int, c: int|
            dst_rect.pos.0 <= r < dst_rect.pos.0 + dst_rect.dims.0 && dst_rect.pos.1 <= c
                < dst_rect.pos.1 + dst_rect.dims.1 ==> #[trigger] final(atlas)@[r][c]
                == sprite@[src_rect.pos.0 + (r - dst_rect.pos.0)][src_rect.pos.1 + (c
                - dst_rect.pos.1)],
        forall|r: int, c: int|
            0 <= r < old(atlas).spec_height() && 0 <= c < old(atlas).spec_width() && !(
            dst_rect.pos.0 <= r < dst_rect.pos.0 + dst_rect.dims.0 && dst_rect.pos.1 <= c
                < dst_rect.pos.1 + dst_rect.dims.1) ==> #[trigger] final(atlas)@[r][c] == old(
                atlas,
            )@[r][c],
{
    let ghost v0 = old(atlas)@;
    let dh = dst_rect.dims.0;
    let dw = dst_rect.dims.1;
    let mut r: u32 = 0;
    while r < dh
        invariant
            r <= dh,
            atlas.wf(),
            sprite.wf(),
            atlas.spec_height() == old(atlas).spec_height(),
            atlas.spec_width() == old(atlas).spec_width(),
            dst_rect.dims == src_rect.dims,
            dh == dst_rect.dims.0,
            dw == dst_rect.dims.1,
            dst_rect.pos.0 + dh <= atlas.spec_height(),
            dst_rect.pos.1 + dw <= atlas.spec_width(),
            src_rect.pos.0 + dh <= sprite.spec_height(),
            src_rect.pos.1 + dw <= sprite.spec_width(),
            atlas@.len() == v0.len(),
            forall|rr: int| 0 <= rr < v0.len() ==> (#[trigger] atlas@[rr]).len() == v0[rr].len(),
            forall|rr: int, cc: int|
                dst_rect.pos.0 <= rr < dst_rect.pos.0 + r && dst_rect.pos.1 <= cc < dst_rect.pos.1
                    + dw ==> #[trigger] atlas@[rr][cc] == sprite@[src_rect.pos.0 + (rr
                    - dst_rect.pos.0)][src_rect.pos.1 + (cc - dst_rect.pos.1)],
            forall|rr: int, cc: int|
                0 <= rr < v0.len() && 0 <= cc < v0[rr].len() && !(dst_rect.pos.0 <= rr
                    < dst_rect.pos.0 + r && dst_rect.pos.1 <= cc < dst_rect.pos.1 + dw)
                    ==> #[trigger] atlas@[rr][cc] == v0[rr][cc],
        decreases dh - r,
    {
        let mut c: u32 = 0;
        while c < dw
            invariant
                c <= dw,
                r < dh,
                atlas.wf(),
                sprite.wf(),
                atlas.spec_height() == old(atlas).spec_height(),
                atlas.spec_width() == old(atlas).spec_width(),
                dst_rect.dims == src_rect.dims,
                dh == dst_rect.dims.0,
                dw == dst_rect.dims.1,
                dst_rect.pos.0 + dh <= atlas.spec_height(),
                dst_rect.pos.1 + dw <= atlas.spec_width(),
                src_rect.pos.0 + dh <= sprite.spec_height(),
                src_rect.pos.1 + dw <= sprite.spec_width(),
                atlas@.len() == v0.len(),
                forall|rr: int| 0 <= rr < v0.len() ==> (#[trigger] atlas@[rr]).len()
                    == v0[rr].len(),
                forall|rr: int, cc: int|
                    dst_rect.pos.0 <= rr < dst_rect.pos.0 + r && dst_rect.pos.1 <= cc
                        < dst_rect.pos.1 + dw ==> #[trigger] atlas@[rr][cc] == sprite@[
                        src_rect.pos.0 + (rr - dst_rect.pos.0)][src_rect.pos.1 + (cc
                        - dst_rect.pos.1)],
                forall|cc: int|
                    dst_rect.pos.1 <= cc < dst_rect.pos.1 + c ==> #[trigger] atlas@[
                        dst_rect.pos.0 + r][cc] == sprite@[src_rect.pos.0 + r as int][
                        src_rect.pos.1 + (cc - dst_rect.pos.1)],
                forall|rr: int, cc: int|
                    0 <= rr < v0.len() && 0 <= cc < v0[rr].len() && !(dst_rect.pos.0 <= rr
                        < dst_rect.pos.0 + r && dst_rect.pos.1 <= cc < dst_rect.pos.1 + dw) && !(
                    rr == dst_rect.pos.0 + r && dst_rect.pos.1 <= cc < dst_rect.pos.1 + c)
                        ==> #[trigger] atlas@[rr][cc] == v0[rr][cc],
            decreases dw - c,
        {
            let p = sprite.get_pixel(src_rect.pos.0 + r, src_rect.pos.1 + c);
            atlas.set_pixel(dst_rect.pos.0 + r, dst_rect.pos.1 + c, p);
            c = c + 1;
        }
        r = r + 1;
    }
}

// ---- forming the atlas ----


/// The packer input the pipeline derives from sorted sub-images: each
/// trim rectangle inflated by `pad` on every side.
pub open spec fn padded_dims_sub(subs: Seq<SubImage>, pad: int) -> Seq<(u32, u32)> {
    Seq::new(
        subs.len(),
        |i: int|
            (
                (trim_spec(subs[i].pixels, subs[i].height, subs[i].width)->Some_0.dims.0 + 2
                    * pad) as u32,
                (trim_spec(subs[i].pixels, subs[i].height, subs[i].width)->Some_0.dims.1 + 2
                    * pad) as u32,
            ),
    )
}

/// Inserting matched elements into matched lists keeps them matched.
proof fn lemma_insert_commutes(
    s: Seq<(String, Image)>,
    t: Seq<SubImage>,
    x: (String, Image),
    y: SubImage,
)
    requires
        subs_match(s, t),
        sub_view(x) == y,
    ensures
        subs_match(insert_by_name(s, x), insert_subs(t, y)),
    decreases s.len(),
{
    if s.len() == 0 {
        assert(subs_match(seq![x], seq![y])) by {
            assert(seq![x][0] == x);
            assert(seq![y][0] == y);
        }
    } else {
        assert(sub_view(s[s.len() - 1]) == t[t.len() - 1]);
        assert(s.last().0@ == t.last().name);
        if spec_str_lt(x.0@, s.last().0@) {
            assert(subs_match(s.drop_last(), t.drop_last())) by {
                assert(forall|k: int|
                    0 <= k < s.len() - 1 ==> s.drop_last()[k] == #[trigger] s[k]);
                assert(forall|k: int|
                    0 <= k < t.len() - 1 ==> t.drop_last()[k] == #[trigger] t[k]);
            }
            lemma_insert_commutes(s.drop_last(), t.drop_last(), x, y);
            let a = insert_by_name(s.drop_last(), x);
            let b = insert_subs(t.drop_last(), y);
            assert forall|k: int|
                0 <= k < a.push(s.last()).len() implies sub_view(
                #[trigger] a.push(s.last())[k],
            ) == b.push(t.last())[k] by {
                if k < a.len() {
                    assert(a.push(s.last())[k] == a[k]);
                    assert(b.push(t.last())[k] == b[k]);
                } else {
                    assert(a.push(s.last())[k] == s.last());
                    assert(b.push(t.last())[k] == t.last());
                }
            }
        } else {
            assert forall|k: int|
                0 <= k < s.push(x).len() implies sub_view(#[trigger] s.push(x)[k]) == t.push(
                y,
            )[k] by {
                if k < s.len() {
                    assert(s.push(x)[k] == s[k]);
                    assert(t.push(y)[k] == t[k]);
                } else {
                    assert(s.push(x)[k] == x);
                    assert(t.push(y)[k] == y);
                }
            }
        }
    }
}

/// Sorting matched lists keeps them matched: the exec sort of named
/// images mirrors the spec sort of their sub-images.
proof fn lemma_sort_commutes(s: Seq<(String, Image)>, t: Seq<SubImage>)
    requires
        subs_match(s, t),
    ensures
        subs_match(sort_by_name(s), sort_subs(t)),
    decreases s.len(),
{
    if s.len() > 0 {
        assert(subs_match(s.drop_last(), t.drop_last())) by {
            assert(forall|k: int| 0 <= k < s.len() - 1 ==> s.drop_last()[k] == #[trigger] s[k]);
            assert(forall|k: int| 0 <= k < t.len() - 1 ==> t.drop_last()[k] == #[trigger] t[k]);
        }
        lemma_sort_commutes(s.drop_last(), t.drop_last());
        assert(sub_view(s[s.len() - 1]) == t[t.len() - 1]);
        lemma_insert_commutes(sort_by_name(s.drop_last()), sort_subs(t.drop_last()), s.last(), t.last());
    }
}

/// The trim rectangle of an image (meaningful when the image has an
/// opaque pixel).
pub open spec fn trim_rect_of(im: Image) -> Rect {
    trim_spec(im@, im.spec_height() as int, im.spec_width() as int)->Some_0
}

/// Every image holds at least one opaque pixel.
pub open spec fn all_nonempty(images: Seq<(String, Image)>) -> bool {
    forall|i: int|
        0 <= i < images.len() ==> has_opaque(
            (#[trigger] images[i]).1@,
            images[i].1.spec_height() as int,
            images[i].1.spec_width() as int,
        )
}

/// The rectangle dimensions handed to the packer: each image's trim
/// rectangle inflated by `pad` on every side.
pub open spec fn padded_dims(images: Seq<(String, Image)>, pad: int) -> Seq<(u32, u32)> {
    Seq::new(
        images.len(),
        |i: int|
            (
                (trim_rect_of(images[i].1).dims.0 + 2 * pad) as u32,
                (trim_rect_of(images[i].1).dims.1 + 2 * pad) as u32,
            ),
    )
}

/// `(rr, cc)` lies in some region's atlas rectangle.
pub open spec fn in_some_region(regions: Seq<AtlasRegion>, rr: int, cc: int) -> bool {
    exists|i: int| 0 <= i < regions.len() && in_rect((#[trigger] regions[i]).atlas_rect, rr, cc)
}

impl Atlas {
    /// Forms an atlas from named images, in their given order: trims each
    /// image, packs the padded trim rectangles into the smallest
    /// power-of-two bin within `ATLAS_MAX_DIM`, copies each trimmed
    /// sprite to its packed position inset by `pad` (the pad border stays
    /// blank), and finally premultiplies alpha. Fails when an image is
    /// fully transparent, when no bin fits all rectangles, or when there
    /// are more regions than the binary format can count. The pad may be
    /// anything up to `MAX_PAD`; pads too large for the bin simply fail
    /// to pack.
    pub fn pack(images: Vec<(String, Image)>, pad: u32) -> (r: Result<Atlas, BuildError>)
        requires
            pad <= MAX_PAD,
            forall|i: int| 0 <= i < images@.len() ==> (#[trigger] images@[i]).1.wf(),
        ensures
            ({
                let pd = padded_dims(images@, pad as int);
                match r {
                    Result::Err(e) => {
                        ||| (e == BuildError::TooManyRegions && images@.len() > 65535)
                        ||| (e == BuildError::EmptyImage && !all_nonempty(images@))
                        ||| (e == BuildError::AtlasFailed && all_nonempty(images@) && pack_spec(
                            ATLAS_MAX_DIM as int,
                            pd,
                        ) is None)
                    },
                    Result::Ok(atlas) => {
                        &&& images@.len() <= 65535
                        &&& all_nonempty(images@)
                        &&& atlas.wf()
                        &&& pack_spec(ATLAS_MAX_DIM as int, pd) is Some
                        &&& ({
                            let ps = pack_spec(ATLAS_MAX_DIM as int, pd)->Some_0.0;
                            let bin = pack_spec(ATLAS_MAX_DIM as int, pd)->Some_0.1;
                            &&& atlas.image.spec_height() as int == max2(bin.0, 1)
                            &&& atlas.image.spec_width() as int == max2(bin.1, 1)
                            &&& atlas.regions@.len() == images@.len()
                            &&& forall|i: int|
                                0 <= i < images@.len() ==> (#[trigger] atlas.regions@[i]).0
                                    == images@[i].0
                            &&& forall|i: int|
                                0 <= i < images@.len() ==> (#[trigger] atlas.regions@[i]).1
                                    == (AtlasRegion {
                                    atlas_rect: Rect {
                                        pos: (
                                            (ps[i].pos.0 + pad) as u32,
                                            (ps[i].pos.1 + pad) as u32,
                                        ),
                                        dims: trim_rect_of(images@[i].1).dims,
                                    },
                                    raw_sprite_rect: trim_rect_of(images@[i].1),
                                    raw_sprite_dims: (
                                        images@[i].1.spec_height(),
                                        images@[i].1.spec_width(),
                                    ),
                                })
                            &&& forall|i: int, rr: int, cc: int|
                                0 <= i < images@.len() && #[trigger] in_rect(
                                    atlas.regions@[i].1.atlas_rect,
                                    rr,
                                    cc,
                                ) ==> atlas.image@[rr][cc] == premul_pixel(
                                    images@[i].1@[atlas.regions@[i].1.raw_sprite_rect.pos.0 + (rr
                                        - atlas.regions@[i].1.atlas_rect.pos.0)][
                                        atlas.regions@[i].1.raw_sprite_rect.pos.1 + (cc
                                        - atlas.regions@[i].1.atlas_rect.pos.1)],
                                )
                            &&& forall|rr: int, cc: int|
                                0 <= rr < atlas.image.spec_height() && 0 <= cc
                                    < atlas.image.spec_width() && !in_some_region(
                                    atlas.regions@.map_values(|p: (String, AtlasRegion)| p.1),
                                    rr,
                                    cc,
                                ) ==> atlas.image@[rr][cc] == (0u8, 0u8, 0u8, 0u8)
                            &&& forall|i: int, j: int|
                                0 <= i < j < images@.len() ==> rects_disjoint(
                                    (#[trigger] atlas.regions@[i]).1.atlas_rect,
                                    (#[trigger] atlas.regions@[j]).1.atlas_rect,
                                )
                            &&& forall|i: int|
                                0 <= i < images@.len() ==> rect_in_bounds(
                                    (#[trigger] atlas.regions@[i]).1.atlas_rect,
                                    atlas.image.spec_height() as int,
                                    atlas.image.spec_width() as int,
                                )
                        })
                    },
                }
            }),
    {
        let ghost images0 = images@;
        let ghost pd = padded_dims(images0, pad as int);
        let n = images.len();
        if n > 65535 {
            return Err(BuildError::TooManyRegions);
        }
        // trim every image
        let mut trims: Vec<Rect> = Vec::new();
        let mut i: usize = 0;
        while i < n
            invariant
                i <= n,
                n == images@.len(),
                images0 == images@,
                forall|u: int| 0 <= u < n ==> (#[trigger] images@[u]).1.wf(),
                trims@.len() == i,
                forall|u: int|
                    0 <= u < i ==> #[trigger] trims@[u] == trim_rect_of(images0[u].1),
                forall|u: int|
                    0 <= u < i ==> has_opaque(
                        (#[trigger] images0[u]).1@,
                        images0[u].1.spec_height() as int,
                        images0[u].1.spec_width() as int,
                    ),
                forall|u: int|
                    0 <= u < i ==> {
                        let t = #[trigger] trims@[u];
                        &&& t.dims.0 >= 1 && t.dims.1 >= 1
                        &&& t.pos.0 + t.dims.0 <= images0[u].1.spec_height()
                        &&& t.pos.1 + t.dims.1 <= images0[u].1.spec_width()
                        &&& images0[u].1.spec_height() <= MAX_IMAGE_DIM
                        &&& images0[u].1.spec_width() <= MAX_IMAGE_DIM
                    },
            decreases n - i,
        {
            proof {
                images@[i as int].1.lemma_wf_dims();
            }
            let t = trim(&images[i].1);
            match t {
                None => {
                    return Err(BuildError::EmptyImage);
                },
                Some(rect) => {
                    trims.push(rect);
                },
            }
            i = i + 1;
        }
        assert(all_nonempty(images0));
        // padded rectangle dimensions
        let mut dims_v: Vec<(u32, u32)> = Vec::new();
        let mut i: usize = 0;
        while i < n
            invariant
                i <= n,
                n == images@.len(),
                images0 == images@,
                pad <= MAX_PAD,
                pd == padded_dims(images0, pad as int),
                trims@.len() == n,
                forall|u: int|
                    0 <= u < n ==> #[trigger] trims@[u] == trim_rect_of(images0[u].1),
                forall|u: int| 0 <= u < n ==> (#[trigger] images@[u]).1.wf(),
                forall|u: int|
                    0 <= u < n ==> {
                        let t = #[trigger] trims@[u];
                        &&& t.dims.0 >= 1 && t.dims.1 >= 1
                        &&& t.pos.0 + t.dims.0 <= images0[u].1.spec_height()
                        &&& t.pos.1 + t.dims.1 <= images0[u].1.spec_width()
                        &&& images0[u].1.spec_height() <= MAX_IMAGE_DIM
                        &&& images0[u].1.spec_width() <= MAX_IMAGE_DIM
                    },
                dims_v@.len() == i,
                forall|u: int| 0 <= u < i ==> #[trigger] dims_v@[u] == pd[u],
            decreases n - i,
        {
            let t = trims[i];
            proof {
                images@[i as int].1.lemma_wf_dims();
            }
            dims_v.push((t.dims.0 + 2 * pad, t.dims.1 + 2 * pad));
            i = i + 1;
        }
        proof {
            assert(dims_v@ =~= pd);
            assert forall|u: int|
                0 <= u < n implies (#[trigger] dims_v@[u]).0 >= 1 && dims_v@[u].1 >= 1 by {
                assert(trims@[u] == trim_rect_of(images0[u].1));
                assert(trims@[u].dims.0 >= 1 && trims@[u].dims.1 >= 1);
                assert(trims@[u].dims.0 <= MAX_IMAGE_DIM && trims@[u].dims.1 <= MAX_IMAGE_DIM);
            }
            vstd::arithmetic::power2::lemma2_to64();
            crate::rect_packer::lemma_ceil_pow2_fixpoint(9);
        }
        let packed = match Pack::pack(ATLAS_MAX_DIM, &dims_v) {
            None => {
                return Err(BuildError::AtlasFailed);
            },
            Some(p) => p,
        };
        let ghost ps = packed.spec_rects();
        let bh = packed.height();
        let bw = packed.width();
        let ih: u32 = if bh == 0 {
            1
        } else {
            bh
        };
        let iw: u32 = if bw == 0 {
            1
        } else {
            bw
        };
        let mut image = Image::new(ih, iw);
        let mut regions: Vec<(String, AtlasRegion)> = Vec::new();
        let mut remaining = images;
        let mut idx: usize = 0;
        while idx < n
            invariant
                idx <= n,
                n == images0.len(),
                pad <= MAX_PAD,
                remaining@ == images0.skip(idx as int),
                forall|u: int| 0 <= u < n ==> (#[trigger] images0[u]).1.wf(),
                trims@.len() == n,
                forall|u: int|
                    0 <= u < n ==> #[trigger] trims@[u] == trim_rect_of(images0[u].1),
                forall|u: int|
                    0 <= u < n ==> {
                        let t = #[trigger] trims@[u];
                        &&& t.dims.0 >= 1 && t.dims.1 >= 1
                        &&& t.pos.0 + t.dims.0 <= images0[u].1.spec_height()
                        &&& t.pos.1 + t.dims.1 <= images0[u].1.spec_width()
                        &&& images0[u].1.spec_height() <= MAX_IMAGE_DIM
                        &&& images0[u].1.spec_width() <= MAX_IMAGE_DIM
                    },
                pd == padded_dims(images0, pad as int),
                ps == packed.spec_rects(),
                ps.len() == n,
                packed.wf(),
                bh == packed.spec_dims().0,
                bw == packed.spec_dims().1,
                bh <= ATLAS_MAX_DIM,
                bw <= ATLAS_MAX_DIM,
                ih == max2(bh as int, 1),
                iw == max2(bw as int, 1),
                forall|u: int| 0 <= u < n ==> (#[trigger] ps[u]).dims == pd[u],
                forall|u: int|
                    0 <= u < n ==> rect_in_bounds(#[trigger] ps[u], bh as int, bw as int),
                forall|u: int, w2: int|
                    0 <= u < w2 < n ==> rects_disjoint(#[trigger] ps[u], #[trigger] ps[w2]),
                image.wf(),
                image.spec_height() == ih,
                image.spec_width() == iw,
                regions@.len() == idx,
                forall|u: int|
                    0 <= u < idx ==> (#[trigger] regions@[u]).0 == images0[u].0,
                forall|u: int|
                    0 <= u < idx ==> (#[trigger] regions@[u]).1 == (AtlasRegion {
                        atlas_rect: Rect {
                            pos: ((ps[u].pos.0 + pad) as u32, (ps[u].pos.1 + pad) as u32),
                            dims: trims@[u].dims,
                        },
                        raw_sprite_rect: trims@[u],
                        raw_sprite_dims: (
                            images0[u].1.spec_height(),
                            images0[u].1.spec_width(),
                        ),
                    }),
                forall|u: int, rr: int, cc: int|
                    0 <= u < idx && #[trigger] in_rect(regions@[u].1.atlas_rect, rr, cc)
                        ==> image@[rr][cc] == images0[u].1@[regions@[u].1.raw_sprite_rect.pos.0 + (
                    rr - regions@[u].1.atlas_rect.pos.0)][regions@[u].1.raw_sprite_rect.pos.1 + (cc
                        - regions@[u].1.atlas_rect.pos.1)],
                forall|rr: int, cc: int|
                    0 <= rr < ih && 0 <= cc < iw && !in_some_region(
                        regions@.map_values(|p: (String, AtlasRegion)| p.1),
                        rr,
                        cc,
                    ) ==> #[trigger] image@[rr][cc] == (0u8, 0u8, 0u8, 0u8),
            decreases n - idx,
        {
            proof {
                assert(images0.skip(idx as int)[0] == images0[idx as int]);
                assert(images0.skip(idx as int).remove(0) =~= images0.skip(idx as int + 1));
            }
            let (name, sprite) = remaining.remove(0);
            let prect = packed.rects()[idx];
            let trect = trims[idx];
            proof {
                assert(prect == ps[idx as int]);
                assert(prect.dims == pd[idx as int]);
                assert(trect == trim_rect_of(images0[idx as int].1));
                assert(trect.dims.0 <= MAX_IMAGE_DIM && trect.dims.1 <= MAX_IMAGE_DIM);
                assert(pd[idx as int].0 == trect.dims.0 + 2 * pad);
                assert(pd[idx as int].1 == trect.dims.1 + 2 * pad);
            }
            let inner = Rect {
                pos: (prect.pos.0 + pad, prect.pos.1 + pad),
                dims: (prect.dims.0 - 2 * pad, prect.dims.1 - 2 * pad),
            };
            let region = AtlasRegion {
                atlas_rect: inner,
                raw_sprite_rect: trect,
                raw_sprite_dims: (sprite.height(), sprite.width()),
            };
            let ghost before = image@;
            let ghost old_regions = regions@;
            render_sprite(&mut image, &sprite, inner, trect);
            regions.push((name, region));
            proof {
                let newregs = regions@.map_values(|p: (String, AtlasRegion)| p.1);
                let oldregs = old_regions.map_values(|p: (String, AtlasRegion)| p.1);
                assert(regions@ =~= old_regions.push((name, region)));
                // earlier regions lie outside the rectangle just written
                assert forall|u: int, rr: int, cc: int|
                    0 <= u < idx && #[trigger] in_rect(regions@[u].1.atlas_rect, rr, cc)
                        implies image@[rr][cc] == images0[u].1@[regions@[u].1.raw_sprite_rect.pos.0
                    + (rr - regions@[u].1.atlas_rect.pos.0)][regions@[u].1.raw_sprite_rect.pos.1 + (
                cc - regions@[u].1.atlas_rect.pos.1)] by {
                    assert(regions@[u] == old_regions[u]);
                    let rg = regions@[u].1;
                    assert(rg.atlas_rect.pos.0 == ps[u].pos.0 + pad);
                    assert(rg.atlas_rect.pos.1 == ps[u].pos.1 + pad);
                    assert(ps[u].dims == pd[u]);
                    assert(trims@[u] == trim_rect_of(images0[u].1));
                    assert(trims@[u].dims.0 <= MAX_IMAGE_DIM && trims@[u].dims.1
                        <= MAX_IMAGE_DIM);
                    assert(pd[u].0 == trims@[u].dims.0 + 2 * pad);
                    assert(pd[u].1 == trims@[u].dims.1 + 2 * pad);
                    assert(rg.atlas_rect.pos.0 + rg.atlas_rect.dims.0 <= ps[u].pos.0
                        + ps[u].dims.0);
                    assert(rg.atlas_rect.pos.1 + rg.atlas_rect.dims.1 <= ps[u].pos.1
                        + ps[u].dims.1);
                    assert(rect_in_bounds(ps[u], bh as int, bw as int));
                    assert(rects_disjoint(ps[u], ps[idx as int]));
                    assert(inner.pos.0 >= ps[idx as int].pos.0 && inner.pos.0 + inner.dims.0
                        <= ps[idx as int].pos.0 + ps[idx as int].dims.0);
                    assert(inner.pos.1 >= ps[idx as int].pos.1 && inner.pos.1 + inner.dims.1
                        <= ps[idx as int].pos.1 + ps[idx as int].dims.1);
                    assert(!(inner.pos.0 <= rr < inner.pos.0 + inner.dims.0 && inner.pos.1 <= cc
                        < inner.pos.1 + inner.dims.1));
                    assert(0 <= rr < ih && 0 <= cc < iw);
                    assert(image@[rr][cc] == before[rr][cc]);
                }
                // pixels covered by no region, including the new one, stay blank
                assert forall|rr: int, cc: int|
                    0 <= rr < ih && 0 <= cc < iw && !in_some_region(newregs, rr, cc)
                        implies #[trigger] image@[rr][cc] == (0u8, 0u8, 0u8, 0u8) by {
                    assert(newregs[idx as int] == region);
                    assert(!in_rect(region.atlas_rect, rr, cc));
                    assert forall|u: int|
                        0 <= u < oldregs.len() implies !in_rect(
                        (#[trigger] oldregs[u]).atlas_rect,
                        rr,
                        cc,
                    ) by {
                        assert(newregs[u] == oldregs[u]);
                    }
                    assert(!in_some_region(oldregs, rr, cc));
                    assert(image@[rr][cc] == before[rr][cc]);
                }
            }
            idx = idx + 1;
        }
        pre_multiply_alpha(&mut image);
        proof {
            let regs = regions@.map_values(|p: (String, AtlasRegion)| p.1);
            assert forall|u: int, rr: int, cc: int|
                0 <= u < n && #[trigger] in_rect(regions@[u].1.atlas_rect, rr, cc)
                    implies image@[rr][cc] == premul_pixel(
                images0[u].1@[regions@[u].1.raw_sprite_rect.pos.0 + (rr
                    - regions@[u].1.atlas_rect.pos.0)][regions@[u].1.raw_sprite_rect.pos.1 + (cc
                    - regions@[u].1.atlas_rect.pos.1)],
            ) by {
                let rg = regions@[u].1;
                assert(rg.atlas_rect.pos.0 == ps[u].pos.0 + pad);
                assert(rg.atlas_rect.pos.1 == ps[u].pos.1 + pad);
                assert(ps[u].dims == pd[u]);
                assert(trims@[u] == trim_rect_of(images0[u].1));
                assert(trims@[u].dims.0 <= MAX_IMAGE_DIM && trims@[u].dims.1 <= MAX_IMAGE_DIM);
                assert(pd[u].0 == trims@[u].dims.0 + 2 * pad);
                assert(pd[u].1 == trims@[u].dims.1 + 2 * pad);
                assert(rg.atlas_rect.pos.0 + rg.atlas_rect.dims.0 <= ps[u].pos.0 + ps[u].dims.0);
                assert(rg.atlas_rect.pos.1 + rg.atlas_rect.dims.1 <= ps[u].pos.1 + ps[u].dims.1);
                assert(rect_in_bounds(ps[u], bh as int, bw as int));
                assert(0 <= rr < ih && 0 <= cc < iw);
            }
            assert forall|rr: int, cc: int|
                0 <= rr < ih && 0 <= cc < iw && !in_some_region(regs, rr, cc)
                    implies #[trigger] image@[rr][cc] == (0u8, 0u8, 0u8, 0u8) by {
                assert(premul_pixel((0u8, 0u8, 0u8, 0u8)) == (0u8, 0u8, 0u8, 0u8));
            }
            assert forall|u: int|
                0 <= u < n implies rect_in_bounds(
                (#[trigger] regions@[u]).1.atlas_rect,
                ih as int,
                iw as int,
            ) by {
                let rg = regions@[u].1;
                assert(ps[u].dims == pd[u]);
                assert(trims@[u] == trim_rect_of(images0[u].1));
                assert(trims@[u].dims.0 <= MAX_IMAGE_DIM && trims@[u].dims.1 <= MAX_IMAGE_DIM);
                assert(pd[u].0 == trims@[u].dims.0 + 2 * pad);
                assert(pd[u].1 == trims@[u].dims.1 + 2 * pad);
                assert(rect_in_bounds(ps[u], bh as int, bw as int));
            }
            assert forall|u: int, u2: int|
                0 <= u < u2 < n implies rects_disjoint(
                (#[trigger] regions@[u]).1.atlas_rect,
                (#[trigger] regions@[u2]).1.atlas_rect,
            ) by {
                let a = regions@[u].1.atlas_rect;
                let b = regions@[u2].1.atlas_rect;
                assert(ps[u].dims == pd[u]);
                assert(ps[u2].dims == pd[u2]);
                assert(trims@[u] == trim_rect_of(images0[u].1));
                assert(trims@[u2] == trim_rect_of(images0[u2].1));
                assert(trims@[u].dims.0 <= MAX_IMAGE_DIM && trims@[u].dims.1 <= MAX_IMAGE_DIM);
                assert(trims@[u2].dims.0 <= MAX_IMAGE_DIM && trims@[u2].dims.1
                    <= MAX_IMAGE_DIM);
                assert(pd[u].0 == trims@[u].dims.0 + 2 * pad);
                assert(pd[u].1 == trims@[u].dims.1 + 2 * pad);
                assert(pd[u2].0 == trims@[u2].dims.0 + 2 * pad);
                assert(pd[u2].1 == trims@[u2].dims.1 + 2 * pad);
                assert(rects_disjoint(ps[u], ps[u2]));
            }
        }
        Ok(Atlas { regions, image })
    }
}

// ---- the whole pipeline on in-memory images ----

/// Everything one packing run produces: the composited atlas, its binary
/// serialization, and the region names in their (sorted) file order.
pub struct AtlasArtifacts {
    pub atlas: Atlas,
    pub bin: Vec<u8>,
    pub names: Vec<String>,
}

/// Some element of `s` carries the same name, pixels and dimensions as
/// `p`.
pub open spec fn holds_like(s: Seq<(String, Image)>, p: (String, Image)) -> bool {
    exists|k: int|
        0 <= k < s.len() && (#[trigger] s[k]).0@ == p.0@ && s[k].1@ == p.1@
            && s[k].1.spec_height() == p.1.spec_height() && s[k].1.spec_width()
            == p.1.spec_width()
}

/// Every tile marker among the names carries a usable tile width: one
/// that is positive, fits `u32`, and divides both image dimensions.
pub open spec fn tile_marks_ok(images: Seq<(String, Image)>) -> bool {
    forall|i: int|
        0 <= i < images.len() ==> ((#[trigger] tile_parse(
            images[i].0@,
        )) matches TileParse::Tiled { base, value } ==> (0 < value <= u32::MAX
            && images[i].1.spec_height() as int % value == 0 && images[i].1.spec_width() as int
            % value == 0))
}

/// `p` carries the name and pixels of an untiled input image.
pub open spec fn from_plain(images: Seq<(String, Image)>, p: (String, Image)) -> bool {
    exists|u: int|
        0 <= u < images.len() && tile_parse((#[trigger] images[u]).0@) is Plain && p.0@
            == images[u].0@ && p.1@ == images[u].1@ && p.1.spec_height()
            == images[u].1.spec_height() && p.1.spec_width() == images[u].1.spec_width()
}

/// Every input name is ASCII.
pub open spec fn names_ascii(images: Seq<(String, Image)>) -> bool {
    forall|i: int| 0 <= i < images.len() ==> (#[trigger] images[i]).0.is_ascii()
}

/// Every untiled input image holds an opaque pixel.
pub open spec fn plains_nonempty(images: Seq<(String, Image)>) -> bool {
    forall|i: int|
        0 <= i < images.len() && tile_parse((#[trigger] images[i]).0@) is Plain ==> has_opaque(
            images[i].1@,
            images[i].1.spec_height() as int,
            images[i].1.spec_width() as int,
        )
}

/// What a successful packing run returns, as a function of the input
/// image views and the pad: the regions are exactly the name-sorted
/// sub-image list, placed by the packer on the padded trim rectangles;
/// the image holds their premultiplied pixels and is blank elsewhere;
/// `bin` serializes the region table; `names` echoes the region names.
pub open spec fn atlas_ok_spec(
    images: Seq<(String, Image)>,
    pad: int,
    out: AtlasArtifacts,
) -> bool {
    let subs = sort_subs(split_all(images));
    let pd = padded_dims_sub(subs, pad);
    &&& names_ascii(images)
    &&& tile_marks_ok(images)
    &&& plains_nonempty(images)
    &&& !has_dup_names(split_all(images))
    &&& split_all(images).len() <= 65535
    &&& out.atlas.wf()
    &&& out.bin@ == atlas_bytes(
        out.atlas.image.spec_width() as int,
        out.atlas.image.spec_height() as int,
        out.atlas.regions@.map_values(|p: (String, AtlasRegion)| p.1),
    )
    &&& out.names@.len() == out.atlas.regions@.len()
    &&& forall|i: int|
        0 <= i < out.names@.len() ==> (#[trigger] out.names@[i])@ == out.atlas.regions@[i].0@
    &&& forall|i: int, j: int|
        0 <= i < j < out.atlas.regions@.len() ==> spec_str_lt(
            (#[trigger] out.atlas.regions@[i]).0@,
            (#[trigger] out.atlas.regions@[j]).0@,
        )
    &&& forall|i: int, j: int|
        0 <= i < j < out.atlas.regions@.len() ==> rects_disjoint(
            (#[trigger] out.atlas.regions@[i]).1.atlas_rect,
            (#[trigger] out.atlas.regions@[j]).1.atlas_rect,
        )
    &&& forall|i: int|
        0 <= i < out.atlas.regions@.len() ==> rect_in_bounds(
            (#[trigger] out.atlas.regions@[i]).1.atlas_rect,
            out.atlas.image.spec_height() as int,
            out.atlas.image.spec_width() as int,
        )
    &&& out.atlas.regions@.len() == subs.len()
    &&& pack_spec(ATLAS_MAX_DIM as int, pd) is Some
    &&& ({
        let ps = pack_spec(ATLAS_MAX_DIM as int, pd)->Some_0.0;
        let bin_dims = pack_spec(ATLAS_MAX_DIM as int, pd)->Some_0.1;
        &&& out.atlas.image.spec_height() as int == max2(bin_dims.0, 1)
        &&& out.atlas.image.spec_width() as int == max2(bin_dims.1, 1)
        &&& forall|j: int|
            0 <= j < subs.len() ==> (#[trigger] out.atlas.regions@[j]).0@ == subs[j].name
                && out.atlas.regions@[j].1 == (AtlasRegion {
                atlas_rect: Rect {
                    pos: ((ps[j].pos.0 + pad) as u32, (ps[j].pos.1 + pad) as u32),
                    dims: trim_spec(subs[j].pixels, subs[j].height, subs[j].width)->Some_0.dims,
                },
                raw_sprite_rect: trim_spec(subs[j].pixels, subs[j].height, subs[j].width)->Some_0,
                raw_sprite_dims: (subs[j].height as u32, subs[j].width as u32),
            })
        &&& forall|j: int, rr: int, cc: int|
            0 <= j < subs.len() && #[trigger] in_rect(out.atlas.regions@[j].1.atlas_rect, rr, cc)
                ==> out.atlas.image@[rr][cc] == premul_pixel(
                subs[j].pixels[out.atlas.regions@[j].1.raw_sprite_rect.pos.0 + (rr
                    - out.atlas.regions@[j].1.atlas_rect.pos.0)][out.atlas.regions@[
                    j].1.raw_sprite_rect.pos.1 + (cc - out.atlas.regions@[j].1.atlas_rect.pos.1)],
            )
        &&& forall|rr: int, cc: int|
            0 <= rr < out.atlas.image.spec_height() && 0 <= cc < out.atlas.image.spec_width()
                && !in_some_region(
                out.atlas.regions@.map_values(|p: (String, AtlasRegion)| p.1),
                rr,
                cc,
            ) ==> out.atlas.image@[rr][cc] == (0u8, 0u8, 0u8, 0u8)
    })
}

/// When each fatal error is returned: the pipeline rejects non-ASCII
/// names first, then bad tile markers, then a region count beyond the
/// format's 16-bit field, then duplicate names, then fully transparent
/// sprites, and finally a bin that cannot fit the padded rectangles.
pub open spec fn atlas_err_spec(images: Seq<(String, Image)>, pad: int, e: BuildError) -> bool {
    ||| (e == BuildError::NonAsciiName && exists|i: int|
        0 <= i < images.len() && !(#[trigger] images[i]).0.is_ascii())
    ||| (e == BuildError::InvalidTileWidth && names_ascii(images) && exists|i: int|
        0 <= i < images.len() && ((#[trigger] tile_parse(
            images[i].0@,
        )) matches TileParse::Tiled { base, value } && (value <= 0 || value > u32::MAX)))
    ||| (e == BuildError::NonDivisibleTileDims && names_ascii(images) && exists|i: int|
        0 <= i < images.len() && ((#[trigger] tile_parse(
            images[i].0@,
        )) matches TileParse::Tiled { base, value } && (images[i].1.spec_height() as int % value
            != 0 || images[i].1.spec_width() as int % value != 0)))
    ||| (e == BuildError::TooManyRegions && names_ascii(images) && tile_marks_ok(images)
        && split_all(images).len() > 65535)
    ||| (e == BuildError::DuplicateName && names_ascii(images) && tile_marks_ok(images)
        && split_all(images).len() <= 65535 && has_dup_names(split_all(images)))
    ||| (e == BuildError::EmptyImage && names_ascii(images) && tile_marks_ok(images)
        && split_all(images).len() <= 65535 && !has_dup_names(split_all(images)) && exists|i: int|
        0 <= i < images.len() && tile_parse((#[trigger] images[i]).0@) is Plain && !has_opaque(
            images[i].1@,
            images[i].1.spec_height() as int,
            images[i].1.spec_width() as int,
        ))
    ||| (e == BuildError::AtlasFailed && names_ascii(images) && tile_marks_ok(images)
        && split_all(images).len() <= 65535 && !has_dup_names(split_all(images))
        && plains_nonempty(images) && pack_spec(
        ATLAS_MAX_DIM as int,
        padded_dims_sub(sort_subs(split_all(images)), pad),
    ) is None)
}

proof fn lemma_strict_sorted_pair(s: Seq<(String, Image)>, i: int, j: int)
    requires
        0 <= i < j < s.len(),
        forall|t: int|
            0 < t < s.len() ==> spec_str_lt((#[trigger] s[t - 1]).0@, s[t].0@),
    ensures
        spec_str_lt(s[i].0@, s[j].0@),
    decreases j - i,
{
    if j == i + 1 {
        assert(spec_str_lt(s[j - 1].0@, s[j].0@));
    } else {
        lemma_strict_sorted_pair(s, i, j - 1);
        assert(spec_str_lt(s[j - 1].0@, s[j].0@));
        lemma_str_lt_trans(s[i].0@, s[j - 1].0@, s[j].0@);
    }
}

/// Forms a sprite atlas out of decoded images, one per source file, each
/// under its file-stem name: splits tile sheets into their non-empty
/// tiles, sorts everything by name (so identical input sets give
/// byte-identical output), rejects duplicate and non-ASCII names, packs
/// the padded trim rectangles, composites the image, and serializes the
/// region table.
#[verifier::loop_isolation(false)]
#[verifier::rlimit(100)]
#[verifier::spinoff_prover]
pub fn form_atlas(images: Vec<(String, Image)>, pad: u32) -> (r: Result<
    AtlasArtifacts,
    BuildError,
>)
    requires
        pad <= MAX_PAD,
        forall|i: int| 0 <= i < images@.len() ==> (#[trigger] images@[i]).1.wf(),
    ensures
        match r {
            Result::Ok(out) => atlas_ok_spec(images@, pad as int, out),
            Result::Err(e) => atlas_err_spec(images@, pad as int, e),
        },
{
    let ghost images0 = images@;
    let n = images.len();
    // names must be ASCII so that sorting and code generation agree
    let mut i: usize = 0;
    while i < n
        invariant
            i <= n,
            n == images@.len(),
            images0 == images@,
            forall|u: int| 0 <= u < i ==> (#[trigger] images@[u]).0.is_ascii(),
        decreases n - i,
    {
        if !images[i].0.is_ascii() {
            return Err(BuildError::NonAsciiName);
        }
        i = i + 1;
    }
    // split tile sheets
    let mut flat: Vec<(String, Image)> = Vec::new();
    proof {
        assert(images0.take(0) =~= Seq::<(String, Image)>::empty());
        assert(split_all(images0.take(0)) =~= Seq::<SubImage>::empty());
    }
    let mut i: usize = 0;
    while i < n
        invariant
            i <= n,
            n == images0.len(),
            images0 == images@,
            subs_match(flat@, split_all(images0.take(i as int))),
            forall|u: int| 0 <= u < n ==> (#[trigger] images0[u]).1.wf(),
            forall|u: int| 0 <= u < n ==> (#[trigger] images0[u]).0.is_ascii(),
            forall|t: int| 0 <= t < flat@.len() ==> (#[trigger] flat@[t]).1.wf(),
            forall|t: int| 0 <= t < flat@.len() ==> (#[trigger] flat@[t]).0.is_ascii(),
            forall|t: int|
                0 <= t < flat@.len() ==> from_plain(images0, #[trigger] flat@[t]) || has_opaque(
                    flat@[t].1@,
                    flat@[t].1.spec_height() as int,
                    flat@[t].1.spec_width() as int,
                ),
            forall|u: int|
                0 <= u < i && tile_parse((#[trigger] images0[u]).0@) is Plain ==> holds_like(
                    flat@,
                    images0[u],
                ),
            forall|u: int|
                0 <= u < i ==> ((#[trigger] tile_parse(images0[u].0@))
                    matches TileParse::Tiled { base, value } ==> (0 < value <= u32::MAX
                    && images0[u].1.spec_height() as int % value == 0
                    && images0[u].1.spec_width() as int % value == 0)),
        decreases n - i,
    {
        let name = String::from_str(images[i].0.as_str());
        let image = images[i].1.duplicate();
        let ghost name0 = name@;
        let ghost imv = image@;
        let ghost ih = image.spec_height() as int;
        let ghost iw = image.spec_width() as int;
        proof {
            assert(name0 == images0[i as int].0@);
            assert(imv == images0[i as int].1@);
            assert(ih == images0[i as int].1.spec_height() as int);
            assert(iw == images0[i as int].1.spec_width() as int);
        }
        let mut part = match split_tiled_image(name, image) {
            Err(e) => {
                proof {
                    assert(images0[i as int].0@ == name0);
                    match tile_parse(name0) {
                        TileParse::Plain => {
                            assert(false);
                        },
                        TileParse::Tiled { base, value } => {
                            if value <= 0 || value > u32::MAX {
                                assert(e == BuildError::InvalidTileWidth);
                                assert(exists|u: int|
                                    0 <= u < images0.len() && ((#[trigger] tile_parse(
                                        images0[u].0@,
                                    )) matches TileParse::Tiled { base: b2, value: v2 } && (v2
                                        <= 0 || v2 > u32::MAX))) by {
                                    assert(tile_parse(images0[i as int].0@)
                                        matches TileParse::Tiled { base: b2, value: v2 } && (v2
                                        <= 0 || v2 > u32::MAX));
                                }
                            } else {
                                assert(e == BuildError::NonDivisibleTileDims);
                                assert(ih == images0[i as int].1.spec_height() as int);
                                assert(iw == images0[i as int].1.spec_width() as int);
                                assert(exists|u: int|
                                    0 <= u < images0.len() && ((#[trigger] tile_parse(
                                        images0[u].0@,
                                    )) matches TileParse::Tiled { base: b2, value: v2 } && (
                                    images0[u].1.spec_height() as int % v2 != 0 || images0[
                                        u].1.spec_width() as int % v2 != 0))) by {
                                    assert(tile_parse(images0[i as int].0@)
                                        matches TileParse::Tiled { base: b2, value: v2 } && (
                                    images0[i as int].1.spec_height() as int % v2 != 0
                                        || images0[i as int].1.spec_width() as int % v2 != 0));
                                }
                            }
                        },
                    }
                }
                return Err(e);
            },
            Ok(p) => p,
        };
        proof {
            match tile_parse(name0) {
                TileParse::Plain => {
                    assert(from_plain(images0, part@[0]));
                },
                TileParse::Tiled { base, value } => {
                    lemma_tiles_from_nonempty(imv, value, base, 0, ih / value, iw / value);
                    // the base is a prefix of the ASCII source name
                    assert forall|k: int|
                        0 <= k < base.len() implies '\0' <= #[trigger] base[k] <= '\u{7f}' by {
                        assert(base[k] == name0[k]);
                    }
                    crate::preprocess::lemma_tiles_names_ascii(
                        imv,
                        value,
                        base,
                        0,
                        ih / value,
                        iw / value,
                    );
                    let tiles = crate::preprocess::tiles_from(
                        imv,
                        value,
                        base,
                        0,
                        ih / value,
                        iw / value,
                    );
                    assert forall|t: int|
                        0 <= t < part@.len() implies (#[trigger] part@[t]).0.is_ascii() by {
                        assert(part@[t].0@ == tiles[t].0);
                        assert(forall|k: int|
                            0 <= k < tiles[t].0.len() ==> '\0' <= #[trigger] tiles[t].0[k]
                                <= '\u{7f}');
                    }
                },
            }
        }
        let ghost flat_before = flat@;
        let ghost part_view0 = part@;
        flat.append(&mut part);
        proof {
            assert forall|u: int|
                0 <= u < i + 1 && tile_parse((#[trigger] images0[u]).0@) is Plain
                    implies holds_like(flat@, images0[u]) by {
                if u < i {
                    assert(holds_like(flat_before, images0[u]));
                    let k = choose|k: int|
                        0 <= k < flat_before.len() && (#[trigger] flat_before[k]).0@
                            == images0[u].0@ && flat_before[k].1@ == images0[u].1@
                            && flat_before[k].1.spec_height() == images0[u].1.spec_height()
                            && flat_before[k].1.spec_width() == images0[u].1.spec_width();
                    assert(flat@[k] == flat_before[k]);
                } else {
                    assert(flat@[flat_before.len() as int] == part_view0[0]);
                }
            }
            // the appended slice is exactly this input's sub-image list
            let p = images0[i as int];
            assert(subs_match(part_view0, split_one(p))) by {
                match tile_parse(name0) {
                    TileParse::Plain => {
                        assert(split_one(p) =~= seq![sub_view(p)]);
                        assert(sub_view(part_view0[0]) == sub_view(p));
                    },
                    TileParse::Tiled { base, value } => {
                        let tiles = crate::preprocess::tiles_from(
                            imv,
                            value,
                            base,
                            0,
                            ih / value,
                            iw / value,
                        );
                        assert(split_one(p).len() == tiles.len());
                        assert forall|k: int|
                            0 <= k < part_view0.len() implies sub_view(#[trigger] part_view0[k])
                            == split_one(p)[k] by {
                            assert(split_one(p)[k] == (SubImage {
                                name: tiles[k].0,
                                pixels: tiles[k].1,
                                height: value,
                                width: value,
                            }));
                            assert(part_view0[k].0@ == tiles[k].0);
                            assert(part_view0[k].1@ == tiles[k].1);
                        }
                    },
                }
            }
            lemma_split_all_push(images0.take(i as int), p);
            assert(images0.take(i as int + 1) =~= images0.take(i as int).push(p));
            assert forall|k: int|
                0 <= k < flat@.len() implies sub_view(#[trigger] flat@[k]) == split_all(
                images0.take(i as int + 1),
            )[k] by {
                if k < flat_before.len() {
                    assert(flat@[k] == flat_before[k]);
                    assert(split_all(images0.take(i as int + 1))[k] == split_all(
                        images0.take(i as int),
                    )[k]);
                } else {
                    assert(flat@[k] == part_view0[k - flat_before.len()]);
                    assert(split_all(images0.take(i as int + 1))[k] == split_one(p)[k
                        - flat_before.len()]);
                }
            }
            assert(subs_match(flat@, split_all(images0.take(i as int + 1))));
        }
        i = i + 1;
    }
    let ghost subs_all = split_all(images0);
    proof {
        assert(images0.take(n as int) =~= images0);
        assert(subs_match(flat@, subs_all));
    }
    if flat.len() > 65535 {
        return Err(BuildError::TooManyRegions);
    }
    let ghost presort = flat@;
    let ghost ss = sort_subs(split_all(images0));
    sort_images_by_name(&mut flat);
    proof {
        lemma_sort_by_name_len(presort);
        lemma_sort_by_name_elems(presort);
        lemma_sort_by_name_elems_rev(presort);
        lemma_sort_by_name_sorted(presort);
        lemma_sort_commutes(presort, subs_all);
        lemma_sort_subs_len(subs_all);
        assert(subs_match(flat@, ss));
        assert forall|u: int|
            0 <= u < n && tile_parse((#[trigger] images0[u]).0@) is Plain implies holds_like(
            flat@,
            images0[u],
        ) by {
            assert(holds_like(presort, images0[u]));
            let k = choose|k: int|
                0 <= k < presort.len() && (#[trigger] presort[k]).0@ == images0[u].0@
                    && presort[k].1@ == images0[u].1@ && presort[k].1.spec_height()
                    == images0[u].1.spec_height() && presort[k].1.spec_width()
                    == images0[u].1.spec_width();
            assert(seq_has_pair(flat@, presort[k]));
            let t = choose|t: int| 0 <= t < flat@.len() && #[trigger] flat@[t] == presort[k];
        }
        assert forall|t: int| 0 <= t < flat@.len() implies ((#[trigger] flat@[t]).1.wf()
            && flat@[t].0.is_ascii() && (from_plain(images0, flat@[t]) || has_opaque(
            flat@[t].1@,
            flat@[t].1.spec_height() as int,
            flat@[t].1.spec_width() as int,
        ))) by {
            let u = choose|u: int| 0 <= u < presort.len() && presort[u] == flat@[t];
        }
    }
    // duplicate names are a configuration error
    let mut i: usize = 1;
    while i < flat.len()
        invariant
            1 <= i <= flat@.len() || flat@.len() == 0,
            forall|t: int| 0 <= t < flat@.len() ==> (#[trigger] flat@[t]).0.is_ascii(),
            sorted_by_name(flat@),
            forall|t: int| 0 < t < i ==> spec_str_lt((#[trigger] flat@[t - 1]).0@, flat@[t].0@),
        decreases flat@.len() - i,
    {
        let strictly = str_lt(&flat[i - 1].0, &flat[i].0);
        if !strictly {
            proof {
                assert(spec_str_le(flat@[i as int - 1].0@, flat@[i as int].0@));
                assert(flat@[i as int - 1].0@ == flat@[i as int].0@);
                let nm = ss[i as int - 1].name;
                assert(sub_view(flat@[i as int - 1]) == ss[i as int - 1]);
                assert(sub_view(flat@[i as int]) == ss[i as int]);
                assert(ss[i as int].name == nm);
                lemma_two_names_count(ss, nm, i as int - 1, i as int);
                lemma_sort_subs_count(subs_all, nm);
                lemma_count_two_pair(subs_all, nm);
                let (a, b) = choose|a: int, b: int|
                    0 <= a < b < subs_all.len() && (#[trigger] subs_all[a]).name == nm && (
                    #[trigger] subs_all[b]).name == nm;
                assert(subs_all[a].name == subs_all[b].name);
                assert(has_dup_names(subs_all));
            }
            return Err(BuildError::DuplicateName);
        }
        i = i + 1;
    }
    let ghost sorted = flat@;
    proof {
        assert forall|t: int, u: int|
            0 <= t < u < sorted.len() implies spec_str_lt(
            (#[trigger] sorted[t]).0@,
            (#[trigger] sorted[u]).0@,
        ) by {
            lemma_strict_sorted_pair(sorted, t, u);
        }
        assert(!has_dup_names(subs_all)) by {
            if has_dup_names(subs_all) {
                let (a, b) = choose|a: int, b: int|
                    0 <= a < b < subs_all.len() && (#[trigger] subs_all[a]).name == (
                    #[trigger] subs_all[b]).name;
                let nm = subs_all[a].name;
                lemma_two_names_count(subs_all, nm, a, b);
                lemma_sort_subs_count(subs_all, nm);
                lemma_count_two_pair(ss, nm);
                let (c, d) = choose|c: int, d: int|
                    0 <= c < d < ss.len() && (#[trigger] ss[c]).name == nm && (
                    #[trigger] ss[d]).name == nm;
                assert(sub_view(sorted[c]) == ss[c]);
                assert(sub_view(sorted[d]) == ss[d]);
                assert(spec_str_lt(sorted[c].0@, sorted[d].0@));
                crate::names::lemma_str_lt_irrefl(nm);
            }
        }
    }
    let atlas = match Atlas::pack(flat, pad) {
        Err(e) => {
            proof {
                assert(tile_marks_ok(images0));
                if e == BuildError::AtlasFailed {
                    assert(all_nonempty(sorted));
                    let pd_exec = padded_dims(sorted, pad as int);
                    let pd_sub = padded_dims_sub(ss, pad as int);
                    assert forall|k: int|
                        0 <= k < sorted.len() implies pd_exec[k] == pd_sub[k] by {
                        assert(sub_view(sorted[k]) == ss[k]);
                        assert(trim_rect_of(sorted[k].1) == trim_spec(
                            ss[k].pixels,
                            ss[k].height,
                            ss[k].width,
                        )->Some_0);
                    }
                    assert(pd_exec =~= pd_sub);
                    assert(pack_spec(ATLAS_MAX_DIM as int, pd_sub) is None);
                    assert forall|u: int|
                        0 <= u < images0.len() && tile_parse(
                            (#[trigger] images0[u]).0@,
                        ) is Plain implies has_opaque(
                        images0[u].1@,
                        images0[u].1.spec_height() as int,
                        images0[u].1.spec_width() as int,
                    ) by {
                        assert(holds_like(sorted, images0[u]));
                        let t = choose|k: int|
                            0 <= k < sorted.len() && (#[trigger] sorted[k]).0@ == images0[u].0@
                                && sorted[k].1@ == images0[u].1@ && sorted[k].1.spec_height()
                                == images0[u].1.spec_height() && sorted[k].1.spec_width()
                                == images0[u].1.spec_width();
                        assert(has_opaque(
                            sorted[t].1@,
                            sorted[t].1.spec_height() as int,
                            sorted[t].1.spec_width() as int,
                        ));
                    }
                }
                if e == BuildError::EmptyImage {
                    assert(!all_nonempty(sorted));
                    let t = choose|t: int|
                        0 <= t < sorted.len() && !has_opaque(
                            (#[trigger] sorted[t]).1@,
                            sorted[t].1.spec_height() as int,
                            sorted[t].1.spec_width() as int,
                        );
                    assert(from_plain(images0, sorted[t]));
                    let u = choose|u: int|
                        0 <= u < images0.len() && tile_parse(
                            (#[trigger] images0[u]).0@,
                        ) is Plain && sorted[t].0@ == images0[u].0@ && sorted[t].1@
                            == images0[u].1@ && sorted[t].1.spec_height()
                            == images0[u].1.spec_height() && sorted[t].1.spec_width()
                            == images0[u].1.spec_width();
                    assert(!has_opaque(
                        images0[u].1@,
                        images0[u].1.spec_height() as int,
                        images0[u].1.spec_width() as int,
                    ));
                }
            }
            return Err(
                if e == BuildError::EmptyImage {
                    BuildError::EmptyImage
                } else if e == BuildError::TooManyRegions {
                    BuildError::TooManyRegions
                } else {
                    BuildError::AtlasFailed
                },
            );
        },
        Ok(a) => a,
    };
    proof {
        // the region list is exactly the sorted sub-image list, placed
        let pd_exec = padded_dims(sorted, pad as int);
        let pd_sub = padded_dims_sub(ss, pad as int);
        assert forall|k: int| 0 <= k < sorted.len() implies pd_exec[k] == pd_sub[k] by {
            assert(sub_view(sorted[k]) == ss[k]);
            assert(trim_rect_of(sorted[k].1) == trim_spec(
                ss[k].pixels,
                ss[k].height,
                ss[k].width,
            )->Some_0);
        }
        assert(pd_exec =~= pd_sub);
        assert(pack_spec(ATLAS_MAX_DIM as int, pd_sub) is Some);
        let ps = pack_spec(ATLAS_MAX_DIM as int, pd_sub)->Some_0.0;
        assert(plains_nonempty(images0)) by {
            assert(all_nonempty(sorted));
            assert forall|u: int|
                0 <= u < images0.len() && tile_parse(
                    (#[trigger] images0[u]).0@,
                ) is Plain implies has_opaque(
                images0[u].1@,
                images0[u].1.spec_height() as int,
                images0[u].1.spec_width() as int,
            ) by {
                assert(holds_like(sorted, images0[u]));
                let t = choose|k: int|
                    0 <= k < sorted.len() && (#[trigger] sorted[k]).0@ == images0[u].0@
                        && sorted[k].1@ == images0[u].1@ && sorted[k].1.spec_height()
                        == images0[u].1.spec_height() && sorted[k].1.spec_width()
                        == images0[u].1.spec_width();
                assert(has_opaque(
                    sorted[t].1@,
                    sorted[t].1.spec_height() as int,
                    sorted[t].1.spec_width() as int,
                ));
            }
        }
        assert forall|j: int|
            0 <= j < ss.len() implies ((#[trigger] atlas.regions@[j]).0@ == ss[j].name
            && atlas.regions@[j].1 == (AtlasRegion {
            atlas_rect: Rect {
                pos: (((ps[j].pos.0 + pad) as u32), ((ps[j].pos.1 + pad) as u32)),
                dims: trim_spec(ss[j].pixels, ss[j].height, ss[j].width)->Some_0.dims,
            },
            raw_sprite_rect: trim_spec(ss[j].pixels, ss[j].height, ss[j].width)->Some_0,
            raw_sprite_dims: (ss[j].height as u32, ss[j].width as u32),
        })) by {
            assert(sub_view(sorted[j]) == ss[j]);
            assert(atlas.regions@[j].0 == sorted[j].0);
            assert(trim_rect_of(sorted[j].1) == trim_spec(
                ss[j].pixels,
                ss[j].height,
                ss[j].width,
            )->Some_0);
            assert((ss[j].height as u32) == sorted[j].1.spec_height());
            assert((ss[j].width as u32) == sorted[j].1.spec_width());
        }
        assert forall|j: int, rr: int, cc: int|
            0 <= j < ss.len() && #[trigger] in_rect(atlas.regions@[j].1.atlas_rect, rr, cc)
                implies atlas.image@[rr][cc] == premul_pixel(
            ss[j].pixels[atlas.regions@[j].1.raw_sprite_rect.pos.0 + (rr
                - atlas.regions@[j].1.atlas_rect.pos.0)][atlas.regions@[
                j].1.raw_sprite_rect.pos.1 + (cc - atlas.regions@[j].1.atlas_rect.pos.1)],
        ) by {
            assert(sub_view(sorted[j]) == ss[j]);
            assert(sorted[j].1@ == ss[j].pixels);
        }
    }
    let bin = atlas.write_bin();
    let mut names: Vec<String> = Vec::new();
    let mut i: usize = 0;
    while i < atlas.regions.len()
        invariant
            i <= atlas.regions@.len(),
            names@.len() == i,
            forall|t: int|
                0 <= t < i ==> (#[trigger] names@[t])@ == atlas.regions@[t].0@,
        decreases atlas.regions@.len() - i,
    {
        let nm = String::from_str(atlas.regions[i].0.as_str());
        names.push(nm);
        i = i + 1;
    }
    Ok(AtlasArtifacts { atlas, bin, names })
}

} // verus!
