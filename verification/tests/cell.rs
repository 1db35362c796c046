use ksq::{Cell, CellRepr};

#[test]
fn cell_get_set() {
    let mut c = Cell::new().set(1, true).set(3, true);
    assert_eq!(10, c.inner());

    assert_eq!(2, c.count_ones());
    assert_eq!(2, c.count_ones_until(4));
    assert_eq!(1, c.count_ones_until(2));

    assert!(!c.get(0));
    assert!(c.get(1));
    assert!(!c.get(2));
    assert!(c.get(3));
    assert!(!c.get(4));

    c = c.set(1, false).set(3, false);
    assert_eq!(0, c.inner());
}

#[test]
fn cell_get_set_all() {
    for i in 0..16 {
        let mut c = Cell::new();
        assert!(!c.get(i));
        c = c.set(i, true);
        assert!(c.get(i));
        c = c.set(i, false);
        assert!(!c.get(i));
    }
}

#[test]
fn cell_get_set_all_dirty() {
    let mut c = Cell::new();
    for i in 0..16 {
        assert!(!c.get(i));
        c = c.set(i, true);
        assert!(c.get(i));
    }
}

#[test]
fn cell_bits_is_sixteen() {
    assert_eq!(16, Cell::bits());
}

#[test]
fn cell_new_and_default_are_zero() {
    assert_eq!(0, Cell::new().inner());
    assert_eq!(0, Cell::default().inner());
    assert_eq!(Cell::new(), Cell::default());
}

#[test]
fn cell_conversions() {
    let c: Cell = 0xa5c3.into();
    assert_eq!(0xa5c3, c.inner());
    let back: CellRepr = c.into();
    assert_eq!(0xa5c3, back);
}

#[test]
fn cell_set_keeps_other_bits() {
    let c = Cell::from(0b1010_0000_0000_0101);
    assert_eq!(0b1010_0000_0100_0101, c.set(6, true).inner());
    assert_eq!(0b0010_0000_0000_0101, c.set(15, false).inner());
    assert_eq!(c.inner(), c.set(0, true).inner());
    assert_eq!(c.inner(), c.set(1, false).inner());
}

#[test]
fn cell_count_ones_counts_bits() {
    assert_eq!(0, Cell::from(0).count_ones());
    assert_eq!(1, Cell::from(0x8000).count_ones());
    assert_eq!(8, Cell::from(0xff00).count_ones());
    assert_eq!(16, Cell::from(0xffff).count_ones());
    assert_eq!(7, Cell::from(0b0110_1001_0001_0110).count_ones());
}

#[test]
fn cell_count_ones_until_is_rank() {
    let c = Cell::from(0b0110_1001_0001_0110);
    let expected = [0, 0, 1, 2, 2, 3, 3, 3, 3, 4, 4, 4, 5, 5, 6, 7];
    for i in 0..16 {
        assert_eq!(expected[i], c.count_ones_until(i));
    }
    assert_eq!(15, Cell::from(0xffff).count_ones_until(15));
    assert_eq!(0, Cell::from(0xffff).count_ones_until(0));
}
