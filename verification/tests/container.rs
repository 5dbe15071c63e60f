use diskvec::index::rank_file_size;
use diskvec::{CheckSummed, DiskVec};

const N: usize = 1_000_000;

#[test]
fn simple_diskarray() {
    let mut array = DiskVec::new();

    for i in 0..N {
        assert_eq!(array.push(CheckSummed::new(i)), i);
    }

    for i in 0..N {
        assert_eq!(array.get(i).unwrap(), &CheckSummed::new(i));
    }

    assert_eq!(array.get(N), None);
}

#[test]
fn stress() {
    let mut array = DiskVec::new();

    let n_groups = 16;
    for group in 0..n_groups {
        for i in 0..N {
            if i % n_groups == group {
                array.push(CheckSummed::new(i));
            }
        }
    }

    assert_eq!(array.len(), N);
}

#[test]
fn mutable_access() {
    let small_n = 200_000;
    let mut array = DiskVec::new();

    for i in 0..small_n {
        assert_eq!(array.push(CheckSummed::new(i)), i);
    }

    let n_passes = 16;
    for _ in 0..n_passes {
        for i in 0..small_n {
            let old = array.get_mut(i).unwrap();
            *old = CheckSummed {
                val: old.val + 1,
                checksum: old.checksum + 1,
            };
        }
    }

    for i in 0..small_n {
        assert_eq!(array.get(i).unwrap(), &CheckSummed::new(i + n_passes));
    }
}

#[test]
fn rank_boundaries() {
    let mut array = DiskVec::new();
    for val in 1..=7usize {
        array.push(CheckSummed::new(val));
    }
    assert_eq!(array.rank_count(), 3);
    assert_eq!(array.rank_len(0), 1);
    assert_eq!(array.rank_len(1), 2);
    assert_eq!(array.rank_len(2), 4);

    let elem = std::mem::size_of::<CheckSummed>();
    assert_eq!(rank_file_size(elem, 0), elem);
    assert_eq!(rank_file_size(elem, 1), elem * 2);
    assert_eq!(rank_file_size(elem, 2), elem * 4);
}

#[test]
fn round_trip() {
    let mut array = DiskVec::new();
    let value = CheckSummed::new(41);
    let i = array.push(value);
    assert_eq!(array.get(i), Some(&value));
}

#[test]
fn absent_slots() {
    let mut array = DiskVec::<CheckSummed>::new();
    assert_eq!(array.len(), 0);
    assert_eq!(array.get(0), None);
    assert!(array.get_mut(0).is_none());
    array.push(CheckSummed::new(7));
    assert_eq!(array.len(), 1);
    assert!(array.get_mut(1).is_none());
    assert_eq!(array.get(1), None);
}

#[test]
fn checksummed_consistency() {
    let c = CheckSummed::new(9);
    assert_eq!(c.val, 9);
    assert_eq!(c.checksum, 10);
    assert!(c.is_consistent());
    let torn = CheckSummed {
        val: 9,
        checksum: 12,
    };
    assert!(!torn.is_consistent());
}
