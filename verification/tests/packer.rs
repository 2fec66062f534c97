use gate_build::rect_packer::{BitGrid, Pack, Rect, ceil_pow_2, is_pow_2, log_ceil_pow_2};

fn overlap(a: &Rect, b: &Rect) -> bool {
    !(a.pos.0 + a.dims.0 <= b.pos.0 || b.pos.0 + b.dims.0 <= a.pos.0 || a.pos.1 + a.dims.1
        <= b.pos.1 || b.pos.1 + b.dims.1 <= a.pos.1)
}

#[test]
fn pow2_helpers() {
    assert_eq!(log_ceil_pow_2(1), 0);
    assert_eq!(log_ceil_pow_2(2), 1);
    assert_eq!(log_ceil_pow_2(3), 2);
    assert_eq!(log_ceil_pow_2(512), 9);
    assert_eq!(ceil_pow_2(0), 1);
    assert_eq!(ceil_pow_2(1), 1);
    assert_eq!(ceil_pow_2(5), 8);
    assert_eq!(ceil_pow_2(512), 512);
    assert_eq!(ceil_pow_2(513), 1024);
    assert!(is_pow_2(1));
    assert!(is_pow_2(64));
    assert!(!is_pow_2(0));
    assert!(!is_pow_2(3));
    assert!(!is_pow_2(513));
}

#[test]
fn grid_first_fit_positions() {
    let mut grid = BitGrid::new(4, 4);
    assert_eq!(grid.fill_rect(2, 2), Some((0, 0)));
    assert_eq!(grid.fill_rect(2, 2), Some((0, 2)));
    assert_eq!(grid.fill_rect(2, 2), Some((2, 0)));
    assert_eq!(grid.fill_rect(2, 2), Some((2, 2)));
    assert_eq!(grid.fill_rect(1, 1), None);
}

#[test]
fn grid_skips_used_cells() {
    let mut grid = BitGrid::new(4, 8);
    assert_eq!(grid.fill_rect(4, 3), Some((0, 0)));
    assert_eq!(grid.fill_rect(2, 5), Some((0, 3)));
    assert_eq!(grid.fill_rect(2, 5), Some((2, 3)));
    assert_eq!(grid.fill_rect(1, 1), None);
}

#[test]
fn pack_three_rects_within_32() {
    let rects: Vec<(u32, u32)> = vec![(10, 10), (5, 20), (8, 8)];
    let pack = Pack::pack(32, &rects).expect("these rectangles fit a 32x32 bin");
    assert!(pack.height() <= 32);
    assert!(pack.width() <= 32);
    let placed = pack.rects();
    assert_eq!(placed.len(), 3);
    for (i, r) in placed.iter().enumerate() {
        assert_eq!(r.dims, rects[i]);
        assert!(r.pos.0 + r.dims.0 <= pack.height());
        assert!(r.pos.1 + r.dims.1 <= pack.width());
    }
    for i in 0..placed.len() {
        for j in (i + 1)..placed.len() {
            assert!(!overlap(&placed[i], &placed[j]));
        }
    }
}

#[test]
fn pack_oversized_rect_fails() {
    let rects: Vec<(u32, u32)> = vec![(600, 600)];
    assert!(Pack::pack(512, &rects).is_none());
}

#[test]
fn pack_dims_are_powers_of_two() {
    let rects: Vec<(u32, u32)> = vec![(3, 5), (7, 2), (1, 1)];
    let pack = Pack::pack(64, &rects).expect("small rectangles fit");
    assert!(is_pow_2(pack.height()));
    assert!(is_pow_2(pack.width()));
    assert!(pack.height() <= 64);
    assert!(pack.width() <= 64);
    assert_eq!(pack.area(), pack.height() * pack.width());
}

#[test]
fn pack_is_deterministic() {
    let rects: Vec<(u32, u32)> = vec![(10, 10), (5, 20), (8, 8), (1, 7), (7, 1)];
    let a = Pack::pack(64, &rects).unwrap();
    let b = Pack::pack(64, &rects).unwrap();
    assert_eq!(a.height(), b.height());
    assert_eq!(a.width(), b.width());
    assert_eq!(a.rects(), b.rects());
}

#[test]
fn pack_single_rect_tight_bin() {
    let rects: Vec<(u32, u32)> = vec![(3, 5)];
    let pack = Pack::pack(512, &rects).unwrap();
    assert_eq!(pack.rects()[0].pos, (0, 0));
    // tight power-of-two bound around a 3x5 rectangle
    assert_eq!(pack.height(), 4);
    assert_eq!(pack.width(), 8);
    assert_eq!(pack.area(), 32);
}

#[test]
fn pack_empty_list() {
    let rects: Vec<(u32, u32)> = vec![];
    let pack = Pack::pack(32, &rects).unwrap();
    assert_eq!(pack.rects().len(), 0);
    assert_eq!(pack.height(), 0);
    assert_eq!(pack.width(), 0);
}

#[test]
fn pack_keeps_input_order() {
    // sorted by descending area internally, but output is index-aligned
    let rects: Vec<(u32, u32)> = vec![(1, 1), (8, 8), (2, 2), (6, 6)];
    let pack = Pack::pack(32, &rects).unwrap();
    for (i, r) in pack.rects().iter().enumerate() {
        assert_eq!(r.dims, rects[i]);
    }
}

#[test]
fn pack_exact_fill() {
    // four 8x8 tiles exactly fill a 16x16 bin
    let rects: Vec<(u32, u32)> = vec![(8, 8), (8, 8), (8, 8), (8, 8)];
    let pack = Pack::pack(16, &rects).unwrap();
    assert_eq!(pack.height(), 16);
    assert_eq!(pack.width(), 16);
    assert_eq!(pack.area(), 256);
}
