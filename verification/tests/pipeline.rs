use gate_build::BuildError;
use gate_build::asset_packer::AssetPacker;
use gate_build::atlas::{Atlas, AtlasRegion, form_atlas, pre_multiply_alpha};
use gate_build::image::Image;
use gate_build::preprocess::{crop, split_tiled_image, trim, u32_to_dec};
use gate_build::rect_packer::Rect;

/// A `height x width` image whose pixels are transparent except where
/// `opaque` places a solid white square.
fn image_with_square(height: u32, width: u32, top: u32, left: u32, size: u32) -> Image {
    let mut im = Image::new(height, width);
    for r in top..(top + size) {
        for c in left..(left + size) {
            im.set_pixel(r, c, (255, 255, 255, 255));
        }
    }
    im
}

#[test]
fn trim_scenario() {
    let im = image_with_square(32, 32, 10, 10, 4);
    let rect = trim(&im).expect("the image has opaque pixels");
    assert_eq!(rect.pos, (10, 10));
    assert_eq!(rect.dims, (4, 4));
}

#[test]
fn trim_fully_transparent() {
    let im = Image::new(8, 8);
    assert!(trim(&im).is_none());
}

#[test]
fn trim_is_idempotent() {
    let im = image_with_square(32, 32, 10, 10, 4);
    let rect = trim(&im).unwrap();
    let cropped = crop(&im, rect);
    let again = trim(&cropped).unwrap();
    assert_eq!(again.pos, (0, 0));
    assert_eq!(again.dims, rect.dims);
    assert_eq!(cropped.height(), rect.dims.0);
    assert_eq!(cropped.width(), rect.dims.1);
}

#[test]
fn decimal_rendering() {
    assert_eq!(u32_to_dec(0), "0");
    assert_eq!(u32_to_dec(7), "7");
    assert_eq!(u32_to_dec(10), "10");
    assert_eq!(u32_to_dec(409), "409");
    assert_eq!(u32_to_dec(4294967295), "4294967295");
}

#[test]
fn split_plain_image_passes_through() {
    let im = image_with_square(8, 8, 1, 1, 2);
    let out = split_tiled_image(String::from("hero"), im).unwrap();
    assert_eq!(out.len(), 1);
    assert_eq!(out[0].0, "hero");
    assert_eq!(out[0].1.height(), 8);
    assert_eq!(out[0].1.width(), 8);
}

#[test]
fn split_tile_sheet_keeps_only_nonempty_cells() {
    // a 4x4 sheet of 2x2 tiles, opaque only in cells (0,0) and (1,1)
    let mut im = Image::new(4, 4);
    im.set_pixel(0, 0, (9, 9, 9, 255));
    im.set_pixel(3, 3, (9, 9, 9, 255));
    let out = split_tiled_image(String::from("sheet_t2"), im).unwrap();
    assert_eq!(out.len(), 2);
    assert_eq!(out[0].0, "sheetR0C0");
    assert_eq!(out[1].0, "sheetR1C1");
    assert_eq!(out[0].1.height(), 2);
    assert_eq!(out[0].1.width(), 2);
    assert_eq!(out[0].1.get_pixel(0, 0), (9, 9, 9, 255));
    assert_eq!(out[1].1.get_pixel(1, 1), (9, 9, 9, 255));
}

#[test]
fn split_rejects_zero_tile_width() {
    let im = Image::new(4, 4);
    let r = split_tiled_image(String::from("sheet_t0"), im);
    assert_eq!(r.err(), Some(BuildError::InvalidTileWidth));
}

#[test]
fn split_rejects_huge_tile_width() {
    let im = Image::new(4, 4);
    let r = split_tiled_image(String::from("sheet_t99999999999"), im);
    assert_eq!(r.err(), Some(BuildError::InvalidTileWidth));
}

#[test]
fn split_rejects_non_divisible_dims() {
    let im = Image::new(5, 4);
    let r = split_tiled_image(String::from("sheet_t2"), im);
    assert_eq!(r.err(), Some(BuildError::NonDivisibleTileDims));
}

#[test]
fn split_name_without_digit_suffix_is_plain() {
    let im = image_with_square(4, 4, 0, 0, 1);
    let out = split_tiled_image(String::from("sheet_t2x"), im).unwrap();
    assert_eq!(out.len(), 1);
    assert_eq!(out[0].0, "sheet_t2x");
}

#[test]
fn premultiply_scales_rgb_and_keeps_alpha() {
    let mut im = Image::new(1, 2);
    im.set_pixel(0, 0, (200, 100, 50, 128));
    im.set_pixel(0, 1, (255, 255, 255, 0));
    pre_multiply_alpha(&mut im);
    // round(128/255 * c): 200 -> 100, 100 -> 50, 50 -> 25
    assert_eq!(im.get_pixel(0, 0), (100, 50, 25, 128));
    assert_eq!(im.get_pixel(0, 1), (0, 0, 0, 0));
}

#[test]
fn region_record_layout() {
    // packed rect lt=(0,0), rb=(10,10); original image 12x12 trimmed by (1,1)
    let region = AtlasRegion {
        atlas_rect: Rect { pos: (0, 0), dims: (10, 10) },
        raw_sprite_rect: Rect { pos: (1, 1), dims: (10, 10) },
        raw_sprite_dims: (12, 12),
    };
    let mut out: Vec<u8> = Vec::new();
    region.write_bin(&mut out);
    // anchor = (2*0 + 12 - 2*1, 2*0 + 12 - 2*1) = (10, 10)
    assert_eq!(out, vec![0, 0, 0, 0, 0, 10, 0, 10, 0, 10, 0, 10]);
}

#[test]
fn region_record_negative_anchor() {
    let region = AtlasRegion {
        atlas_rect: Rect { pos: (0, 0), dims: (2, 2) },
        raw_sprite_rect: Rect { pos: (6, 6), dims: (2, 2) },
        raw_sprite_dims: (8, 8),
    };
    let mut out: Vec<u8> = Vec::new();
    region.write_bin(&mut out);
    // anchor*2 = 2*0 + 8 - 2*6 = -4, big-endian two's complement
    assert_eq!(&out[8..12], &[0xff, 0xfc, 0xff, 0xfc]);
}

#[test]
fn atlas_binary_header() {
    let atlas = Atlas { regions: Vec::new(), image: Image::new(16, 32) };
    let bin = atlas.write_bin();
    // width, height, count as big-endian u16
    assert_eq!(bin, vec![0, 32, 0, 16, 0, 0]);
}

#[test]
fn form_atlas_sorts_names_and_serializes() {
    let b = image_with_square(8, 8, 2, 2, 3);
    let a = image_with_square(6, 6, 0, 0, 2);
    let out = form_atlas(vec![(String::from("zeta"), b), (String::from("alpha"), a)], 1)
        .expect("two small sprites fit the atlas");
    assert_eq!(out.names.len(), 2);
    assert_eq!(out.names[0], "alpha");
    assert_eq!(out.names[1], "zeta");
    assert_eq!(out.atlas.regions.len(), 2);
    assert_eq!(out.atlas.regions[0].0, "alpha");
    // header + two 12-byte region records
    assert_eq!(out.bin.len(), 6 + 2 * 12);
    // the trimmed sprites keep their pixels in the atlas, premultiplied
    let r0 = &out.atlas.regions[0].1;
    assert_eq!(r0.atlas_rect.dims, (2, 2));
    assert_eq!(r0.raw_sprite_rect, Rect { pos: (0, 0), dims: (2, 2) });
    assert_eq!(r0.raw_sprite_dims, (6, 6));
    let px = out.atlas.image.get_pixel(r0.atlas_rect.pos.0, r0.atlas_rect.pos.1);
    assert_eq!(px, (255, 255, 255, 255));
}

#[test]
fn form_atlas_rejects_duplicate_names() {
    let a = image_with_square(4, 4, 0, 0, 1);
    let b = image_with_square(4, 4, 0, 0, 1);
    let r = form_atlas(vec![(String::from("same"), a), (String::from("same"), b)], 1);
    assert_eq!(r.err(), Some(BuildError::DuplicateName));
}

#[test]
fn form_atlas_rejects_empty_image() {
    let r = form_atlas(vec![(String::from("ghost"), Image::new(4, 4))], 1);
    assert_eq!(r.err(), Some(BuildError::EmptyImage));
}

#[test]
fn form_atlas_rejects_non_ascii_name() {
    let a = image_with_square(4, 4, 0, 0, 1);
    let r = form_atlas(vec![(String::from("h\u{e9}ros"), a)], 1);
    assert_eq!(r.err(), Some(BuildError::NonAsciiName));
}

#[test]
fn form_atlas_empty_input() {
    let out = form_atlas(Vec::new(), 1).expect("an empty set still forms a 1x1 atlas");
    assert_eq!(out.names.len(), 0);
    assert_eq!(out.atlas.image.height(), 1);
    assert_eq!(out.atlas.image.width(), 1);
    assert_eq!(out.bin, vec![0, 1, 0, 1, 0, 0]);
}

#[test]
fn form_atlas_identical_runs_byte_identical() {
    let mk = || {
        vec![
            (String::from("b"), image_with_square(8, 8, 1, 1, 3)),
            (String::from("a"), image_with_square(5, 7, 0, 2, 2)),
        ]
    };
    let one = form_atlas(mk(), 1).unwrap();
    let two = form_atlas(mk(), 1).unwrap();
    assert_eq!(one.bin, two.bin);
    assert_eq!(one.atlas.image.data(), two.atlas.image.data());
}

#[test]
fn asset_packer_flow() {
    let mut packer = AssetPacker::new();
    packer.cargo_rerun_if_changed();
    assert!(packer.check_rerun());
    let images = vec![(String::from("hero"), image_with_square(8, 8, 1, 1, 3))];
    let artifacts = packer.sprites(images).expect("one sprite packs");
    assert_eq!(artifacts.names, vec![String::from("hero")]);
    packer.music(vec![String::from("overworld"), String::from("battle")]).unwrap();
    packer.sounds(vec![String::from("jump")]).unwrap();
    packer.gen_javascript_and_html();
    let code = packer.gen_asset_id_code().expect("id lists fit");
    assert_eq!(code.sprite_ids, vec![String::from("hero")]);
    // music names are sorted so id assignment is deterministic
    assert_eq!(code.music_ids, vec![String::from("battle"), String::from("overworld")]);
    assert_eq!(code.sound_ids, vec![String::from("jump")]);
}

#[test]
fn image_from_raw_checks_length() {
    let data = vec![0u8; 4 * 2 * 3];
    let im = Image::from_raw(2, 3, data).expect("matching length");
    assert_eq!(im.height(), 2);
    assert_eq!(im.width(), 3);
    assert!(Image::from_raw(2, 3, vec![0u8; 5]).is_none());
}

#[test]
fn form_atlas_rejects_unpackable_sprite() {
    // fully opaque 600x600: the trimmed rectangle exceeds the 512 bin
    let mut im = Image::new(600, 600);
    for r in 0..600 {
        im.set_pixel(r, 0, (1, 1, 1, 255));
        im.set_pixel(r, 599, (1, 1, 1, 255));
    }
    let r = form_atlas(vec![(String::from("huge"), im)], 1);
    assert_eq!(r.err(), Some(BuildError::AtlasFailed));
}

#[test]
fn form_atlas_rejects_too_many_regions() {
    let mut images = Vec::new();
    for i in 0..65536u32 {
        let mut im = Image::new(1, 1);
        im.set_pixel(0, 0, (1, 1, 1, 255));
        images.push((format!("s{}", i), im));
    }
    let r = form_atlas(images, 0);
    assert_eq!(r.err(), Some(BuildError::TooManyRegions));
}

#[test]
fn split_uses_last_tile_marker() {
    // the marker is the trailing `_t<digits>`; earlier ones join the base
    let mut im = Image::new(3, 3);
    im.set_pixel(0, 0, (1, 1, 1, 255));
    let out = split_tiled_image(String::from("a_t2_t3"), im).unwrap();
    assert_eq!(out.len(), 1);
    assert_eq!(out[0].0, "a_t2R0C0");
    assert_eq!(out[0].1.height(), 3);
}

#[test]
fn pad_zero_keeps_tiles_seamless() {
    let mut im = Image::new(2, 2);
    im.set_pixel(0, 0, (1, 2, 3, 255));
    im.set_pixel(1, 1, (4, 5, 6, 255));
    let out = form_atlas(vec![(String::from("cell"), im)], 0).unwrap();
    let region = &out.atlas.regions[0].1;
    assert_eq!(region.atlas_rect.dims, (2, 2));
    let (r0, c0) = region.atlas_rect.pos;
    assert_eq!(out.atlas.image.get_pixel(r0, c0), (1, 2, 3, 255));
    assert_eq!(out.atlas.image.get_pixel(r0 + 1, c0 + 1), (4, 5, 6, 255));
}

#[test]
fn form_atlas_accepts_large_pad() {
    // a pad of 100 still packs a small sprite: 1x1 trimmed + 200 pad = 201,
    // which fits the 512 bin
    let a = image_with_square(4, 4, 1, 1, 1);
    let out = form_atlas(vec![(String::from("dot"), a)], 100).unwrap();
    let region = &out.atlas.regions[0].1;
    assert_eq!(region.atlas_rect.dims, (1, 1));
    assert_eq!(region.atlas_rect.pos, (100, 100));
    assert_eq!(out.atlas.image.height(), 256);
    assert_eq!(out.atlas.image.width(), 256);
}

#[test]
fn form_atlas_pad_too_large_for_bin() {
    // 2*300 exceeds the 512 bin on its own, so packing must fail cleanly
    let a = image_with_square(4, 4, 1, 1, 1);
    let r = form_atlas(vec![(String::from("dot"), a)], 300);
    assert_eq!(r.err(), Some(BuildError::AtlasFailed));
}
