use ksq::{Error, Tree};

#[test]
fn tree_parse() {
    Tree::from(&[0]).unwrap();
}

#[test]
fn tree_parse_111() {
    let tree = Tree::from(&[1, 1, 1]).unwrap();
    assert_eq!(4096, tree.bits());
}

#[test]
fn tree_parse_111_get() {
    let tree = Tree::from(&[1, 1, 1]).unwrap();
    assert!(tree.get(0));
    assert!(!tree.get(1));
    assert!(!tree.get(4095));
}

#[test]
fn tree_parse_00_error() {
    assert!(Tree::from(&[0, 0]).is_err());
}

#[test]
fn tree_mega() {
    let mut tree = Tree::from(&[1, 1, 0]).unwrap();
    for idx in 0..4096 {
        assert!(!tree.get(idx));
        tree.set(idx);
        assert!(tree.get(idx));
    }
}

#[test]
fn tree_mega_loopback() {
    let mut tree = Tree::from(&[1, 1, 0]).unwrap();
    for idx in 0..4096 {
        assert!(!tree.get(idx));
        tree.set(idx);
        assert!(tree.get(idx));

        {
            let tree = Tree::from(&tree.to_vec()).unwrap();
            assert!(tree.get(idx));
        }

        tree.unset(idx);
        assert!(!tree.get(idx));

        {
            let tree = Tree::from(&tree.to_vec()).unwrap();
            assert!(!tree.get(idx));
        }
    }
}

#[test]
fn tree_mega_unset() {
    let mut tree = Tree::from(&[1, 1, 0]).unwrap();
    for idx in 0..4096 {
        assert!(!tree.get(idx));
        tree.set(idx);
        assert!(tree.get(idx));
        tree.unset(idx);
        assert!(!tree.get(idx));
    }
}

#[test]
fn tree_new_is_one_empty_cell() {
    let tree = Tree::new();
    assert_eq!(1, tree.height());
    assert_eq!(16, tree.bits());
    assert_eq!(vec![0], tree.to_vec());
    for bit in 0..16 {
        assert!(!tree.get(bit));
    }
    assert_eq!(Tree::new(), Tree::default());
}

#[test]
fn tree_from_empty_is_empty_error() {
    assert_eq!(Err(Error::Empty), Tree::from(&[]));
}

#[test]
fn tree_from_trailing_words_is_malformed() {
    assert_eq!(Err(Error::Malformed), Tree::from(&[0, 0]));
    assert_eq!(Err(Error::Malformed), Tree::from(&[1, 0, 0]));
    assert_eq!(Err(Error::Malformed), Tree::from(&[3, 0, 0, 7]));
}

#[test]
fn tree_from_missing_cells_is_malformed() {
    assert_eq!(Err(Error::Malformed), Tree::from(&[3, 1]));
    assert_eq!(Err(Error::Malformed), Tree::from(&[0xffff, 1, 2, 3]));
    assert_eq!(Err(Error::Malformed), Tree::from(&[1, 7, 1, 1]));
}

#[test]
fn tree_from_accepts_empty_last_level() {
    let tree = Tree::from(&[1, 0]).unwrap();
    assert_eq!(2, tree.height());
    assert_eq!(256, tree.bits());
    assert_eq!(vec![1, 0], tree.to_vec());
    let tree = Tree::from(&[3, 0, 1, 1]).unwrap();
    assert_eq!(3, tree.height());
    assert!(tree.get(256));
    assert!(!tree.get(0));
    assert!(!tree.get(257));
}

#[test]
fn tree_from_reads_levels_by_popcount() {
    let tree = Tree::from(&[0b101, 0x8000, 0x0001]).unwrap();
    assert_eq!(2, tree.height());
    assert!(tree.get(15));
    assert!(tree.get(32));
    assert!(!tree.get(16));
    assert!(!tree.get(0));
    assert!(!tree.get(255));
    assert_eq!(vec![15, 32], tree.iter_ones().collect());
}

#[test]
fn tree_round_trip_keeps_every_bit() {
    let mut tree = Tree::new();
    tree.grow();
    tree.grow();
    for bit in [0, 1, 17, 255, 256, 1000, 4095, 2048, 33] {
        tree.set(bit);
    }
    tree.unset(1000);
    let words = tree.to_vec();
    let back = Tree::from(&words).unwrap();
    assert_eq!(tree.bits(), back.bits());
    assert_eq!(words, back.to_vec());
    assert_eq!(tree, back);
    for bit in 0..tree.bits() {
        assert_eq!(tree.get(bit), back.get(bit));
    }
}

#[test]
fn tree_set_inserts_cells_by_rank() {
    let mut tree = Tree::from(&[1, 0]).unwrap();
    tree.set(17);
    assert_eq!(vec![3, 0, 2], tree.to_vec());
    tree.set(255);
    assert_eq!(vec![0x8003, 0, 2, 0x8000], tree.to_vec());
    tree.set(128);
    assert_eq!(vec![0x8103, 0, 2, 1, 0x8000], tree.to_vec());
    tree.set(3);
    assert_eq!(vec![0x8103, 8, 2, 1, 0x8000], tree.to_vec());
}

#[test]
fn tree_set_twice_is_set_once() {
    let mut once = Tree::new();
    once.grow();
    once.grow();
    let mut twice = once.clone();
    for bit in [5, 300, 4095, 77] {
        once.set(bit);
        twice.set(bit);
        twice.set(bit);
    }
    assert_eq!(once.to_vec(), twice.to_vec());
    assert_eq!(once, twice);
}

#[test]
fn tree_set_unset_restores_values() {
    let mut tree = Tree::from(&[0b11, 0x00f0, 0x0001]).unwrap();
    let before: Vec<bool> = tree.iter().collect();
    for bit in 0..tree.bits() {
        if !tree.get(bit) {
            tree.set(bit);
            assert!(tree.get(bit));
            tree.unset(bit);
            assert!(!tree.get(bit));
        }
    }
    let after: Vec<bool> = tree.iter().collect();
    assert_eq!(before, after);
}

#[test]
fn tree_unset_does_not_prune() {
    let mut tree = Tree::new();
    tree.grow();
    let fresh = tree.to_vec();
    assert_eq!(vec![1, 0], fresh);
    for bit in 0..256 {
        tree.set(bit);
    }
    assert_eq!(17, tree.to_vec().len());
    for bit in 0..256 {
        tree.unset(bit);
    }
    let used = tree.to_vec();
    let mut expected = vec![0u16; 17];
    expected[0] = 0xffff;
    assert_eq!(expected, used);
    assert!(used.len() >= fresh.len());
    assert_ne!(fresh, used);
    for bit in 0..256 {
        assert!(!tree.get(bit));
    }
}

#[test]
fn tree_unset_below_unset_slot_changes_nothing() {
    let mut tree = Tree::from(&[2, 10]).unwrap();
    tree.unset(5);
    tree.unset(200);
    assert_eq!(vec![2, 10], tree.to_vec());
    tree.unset(18);
    assert_eq!(vec![2, 10], tree.to_vec());
    tree.unset(19);
    assert_eq!(vec![2, 2], tree.to_vec());
}

#[test]
fn tree_grows_by_sixteen() {
    let mut tree = Tree::new();
    assert_eq!(16, tree.bits());
    assert_eq!(1, tree.height());
    tree.grow();
    assert_eq!(256, tree.bits());
    assert_eq!(2, tree.height());
    tree.grow();
    assert_eq!(4096, tree.bits());
    assert_eq!(3, tree.height());
    let mut tall = Tree::new();
    for _ in 0..14 {
        tall.grow();
    }
    assert_eq!(1 << 60, tall.bits());
}

#[test]
fn tree_grow_keeps_bits() {
    let mut tree = Tree::from(&[0x8001]).unwrap();
    tree.grow();
    assert_eq!(vec![1, 0x8001], tree.to_vec());
    assert!(tree.get(0));
    assert!(tree.get(15));
    for bit in 1..15 {
        assert!(!tree.get(bit));
    }
    for bit in 16..256 {
        assert!(!tree.get(bit));
    }
}

#[test]
fn tree_last_bit_is_in_range() {
    let mut tree = Tree::new();
    tree.grow();
    let last = tree.bits() - 1;
    assert!(!tree.get(last));
    tree.set(last);
    assert!(tree.get(last));
    tree.unset(last);
    assert!(!tree.get(last));
}

#[test]
fn tree_taller_than_a_usize_still_reads_and_writes() {
    let mut tree = Tree::new();
    for _ in 0..17 {
        tree.grow();
    }
    assert_eq!(18, tree.height());
    assert!(!tree.get(usize::MAX));
    tree.set(usize::MAX);
    assert!(tree.get(usize::MAX));
    assert!(!tree.get(usize::MAX - 1));
    tree.set(0);
    assert!(tree.get(0));
    tree.unset(usize::MAX);
    assert!(!tree.get(usize::MAX));
    assert!(tree.get(0));
    let back = Tree::from(&tree.to_vec()).unwrap();
    assert!(back.get(0));
    assert_eq!(tree, back);
}
