use diskvec::index::min_max;
use diskvec::recovery::Search;
use diskvec::{CheckSummed, DiskVec};

const N: usize = 1_000_000;

#[test]
fn diskarray_restore() {
    let image;
    {
        let mut array = DiskVec::new();

        for i in 0..N {
            assert_eq!(array.push(CheckSummed::new(i)), i);
        }

        image = array.export();
    }

    {
        let array = DiskVec::<CheckSummed>::open(image);

        for i in 0..N {
            assert_eq!(array.get(i).unwrap(), &CheckSummed::new(i));
        }
    }
}

#[test]
fn diskarray_len() {
    for little_n in 0..100 {
        let image;
        {
            let mut array = DiskVec::new();

            for i in 0..little_n {
                assert_eq!(array.push(CheckSummed::new(i)), i);
            }

            image = array.export();
        }

        {
            let array = DiskVec::<CheckSummed>::open(image);

            assert_eq!(array.len(), little_n);
        }
    }
}

#[test]
fn open_empty() {
    let array = DiskVec::<CheckSummed>::open(Vec::new());
    assert_eq!(array.len(), 0);
    assert_eq!(array.rank_count(), 0);
    assert_eq!(array.get(0), None);
}

#[test]
fn reopened_container_keeps_growing() {
    let mut array = DiskVec::new();
    for i in 0..5 {
        array.push(CheckSummed::new(i));
    }
    let image = array.export();

    let mut reopened = DiskVec::open(image);
    assert_eq!(reopened.len(), 5);
    let i = reopened.push(CheckSummed::new(5));
    assert_eq!(i, 5);
    assert_eq!(reopened.get(5).unwrap(), &CheckSummed::new(5));
}

/// Drive the recovery search by hand over the written-flags of the highest
/// rank, the way a caller holding the rank files in mapped memory would.
fn recover(top: usize, written: &[bool]) -> usize {
    let (min, _) = min_max(top);
    let mut search = Search::new(top);
    loop {
        let probe = search.probe();
        let nonzero = written[probe - min];
        if let Some(len) = search.step(nonzero) {
            return len;
        }
    }
}

#[test]
fn search_finds_every_boundary() {
    for top in 0..8usize {
        let slots = 1usize << top;
        let (min, _) = min_max(top);
        for boundary in 0..=slots {
            let written: Vec<bool> = (0..slots).map(|o| o < boundary).collect();
            assert_eq!(recover(top, &written), min + boundary);
        }
    }
}

#[test]
fn search_single_slot_rank() {
    assert_eq!(recover(0, &[false]), 0);
    assert_eq!(recover(0, &[true]), 1);
}
