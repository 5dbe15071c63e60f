use diskvec::index::{min_max, pow2_usize, rank_file_size, rank_ofs};

#[test]
fn mapping() {
    let mappings: Vec<_> = (0..7).map(rank_ofs).collect();
    assert_eq!(
        mappings,
        vec![(0, 0), (1, 0), (1, 1), (2, 0), (2, 1), (2, 2), (2, 3)]
    );
}

#[test]
fn min_max_index() {
    let mappings: Vec<_> = (0..5).map(min_max).collect();
    assert_eq!(mappings, vec![(0, 0), (1, 2), (3, 6), (7, 14), (15, 30)]);
}

#[test]
fn decompose_recomposes() {
    for i in 0..10_000usize {
        let (r, o) = rank_ofs(i);
        let slots = pow2_usize(r);
        assert!(o < slots);
        assert_eq!(slots + o - 1, i);
    }
}

#[test]
fn bounds_formula() {
    assert_eq!(min_max(0), (0, 0));
    for r in 1..20u32 {
        let expected = (2usize.pow(r) - 1, 2usize.pow(r + 1) - 2);
        assert_eq!(min_max(r as usize), expected);
    }
    assert_eq!(min_max(1), (1, 2));
    assert_eq!(min_max(4), (15, 30));
}

#[test]
fn powers_of_two() {
    assert_eq!(pow2_usize(0), 1);
    assert_eq!(pow2_usize(1), 2);
    assert_eq!(pow2_usize(10), 1024);
}

#[test]
fn rank_file_sizes() {
    assert_eq!(rank_file_size(16, 0), 16);
    assert_eq!(rank_file_size(16, 1), 32);
    assert_eq!(rank_file_size(16, 3), 128);
    assert_eq!(rank_file_size(1, 12), 4096);
}
