use ksq::Tree;

#[test]
fn tree_iter() {
    let tree = Tree::from(&[1, 10]).unwrap();

    let v: Vec<bool> = tree.iter().collect();
    let mut r = vec![false; 256];
    r[1] = true;
    r[3] = true;
    assert_eq!(r, v);
}

#[test]
fn tree_mid_iter() {
    let tree = Tree::from(&[2, 10]).unwrap();

    assert!(tree.get(17));
    assert!(tree.get(19));

    let v: Vec<bool> = tree.iter_range(16..32).collect();
    let mut r = vec![false; 16];
    r[1] = true;
    r[3] = true;
    assert_eq!(r, v);
}

#[test]
fn tree_iter_ones() {
    let tree = Tree::from(&[2, 10]).unwrap();

    assert!(tree.get(17));
    assert!(tree.get(19));

    let v: Vec<usize> = tree.iter_ones().collect();
    assert_eq!(vec![17, 19], v);
}

fn sample() -> Tree {
    let mut tree = Tree::new();
    tree.grow();
    tree.grow();
    for bit in [0, 15, 16, 31, 32, 47, 100, 1023, 1024, 4000, 4095] {
        tree.set(bit);
    }
    tree.set(2000);
    tree.unset(2000);
    tree
}

#[test]
fn tree_iter_agrees_with_get() {
    let tree = sample();
    let v: Vec<bool> = tree.iter().collect();
    assert_eq!(tree.bits(), v.len());
    for bit in 0..tree.bits() {
        assert_eq!(tree.get(bit), v[bit]);
    }
}

#[test]
fn tree_iter_ones_agrees_with_get() {
    let tree = sample();
    let v: Vec<usize> = tree.iter_ones().collect();
    assert_eq!(vec![0, 15, 16, 31, 32, 47, 100, 1023, 1024, 4000, 4095], v);
    let expected: Vec<usize> = (0..tree.bits()).filter(|b| tree.get(*b)).collect();
    assert_eq!(expected, v);
}

#[test]
fn tree_iter_next_is_lazy() {
    let tree = Tree::from(&[0b101]).unwrap();
    let mut it = tree.iter_range(0..3);
    assert_eq!(Some(true), it.next());
    assert_eq!(Some(false), it.next());
    assert_eq!(Some(true), it.next());
    assert_eq!(None, it.next());
    assert_eq!(None, it.next());
    let mut ones = tree.iter_ones();
    assert_eq!(Some(0), ones.next());
    assert_eq!(Some(2), ones.next());
    assert_eq!(None, ones.next());
    assert_eq!(None, ones.next());
}

#[test]
fn tree_iter_is_a_snapshot() {
    let mut tree = Tree::from(&[2, 10]).unwrap();
    let it = tree.iter_ones();
    let all = tree.iter();
    tree.set(0);
    tree.unset(17);
    assert_eq!(vec![17, 19], it.collect());
    let v: Vec<bool> = all.collect();
    assert!(!v[0]);
    assert!(v[17]);
    assert_eq!(vec![0, 19], tree.iter_ones().collect());
}

#[test]
fn tree_iter_range_starts_after_whole_cells() {
    let tree = sample();
    for from in [0, 1, 15, 16, 17, 31, 32, 33, 47, 48, 49, 64, 100, 112, 1024, 4080, 4095, 4096] {
        for len in [0, 1, 16, 17, 40] {
            let to = from + len;
            let v: Vec<bool> = tree.iter_range(from..to).collect();
            let expected: Vec<bool> =
                (from..to).map(|b| b < tree.bits() && tree.get(b)).collect();
            assert_eq!(expected, v);
            let ones: Vec<usize> = tree.iter_ones_range(from..to).collect();
            let expected: Vec<usize> =
                (from..to).filter(|b| *b < tree.bits() && tree.get(*b)).collect();
            assert_eq!(expected, ones);
        }
    }
}

#[test]
fn tree_iter_range_pads_with_unset() {
    let tree = Tree::from(&[0x8000]).unwrap();
    let v: Vec<bool> = tree.iter_range(14..20).collect();
    assert_eq!(vec![false, true, false, false, false, false], v);
    let v: Vec<bool> = tree.iter_range(20..14).collect();
    assert_eq!(Vec::<bool>::new(), v);
}

#[test]
fn tree_iter_ones_range_stops_at_end() {
    let tree = Tree::from(&[0b101, 0x0004, 0x0001]).unwrap();
    assert_eq!(vec![2, 32], tree.iter_ones().collect());
    assert_eq!(vec![2], tree.iter_ones_range(0..20).collect());
    assert_eq!(vec![2], tree.iter_ones_range(2..32).collect());
    assert_eq!(vec![32], tree.iter_ones_range(3..33).collect());
    assert_eq!(Vec::<usize>::new(), tree.iter_ones_range(3..32).collect());
    assert_eq!(Vec::<usize>::new(), tree.iter_ones_range(33..256).collect());
    assert_eq!(Vec::<usize>::new(), tree.iter_ones_range(40..10).collect());
}
