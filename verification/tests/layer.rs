use ksq::layer::{count_ones, count_ones_until};
use ksq::{Cell, Layer};

fn layer_of(words: &[u16]) -> Layer {
    Layer::from(words.iter().map(|w| Cell::from(*w)).collect())
}

#[test]
fn layer_basic() {
    let layer = Layer::from(vec![1.into()]);
    let (_, v) = layer.get((0, 0, 0));
    assert!(v);
}

#[test]
fn layer_count_ones_sums_cells() {
    let layer = layer_of(&[0b1011, 0, 0xffff, 0x8000]);
    assert_eq!(20, layer.count_ones());
    assert_eq!(0, layer_of(&[]).count_ones());
    assert_eq!(Some(20), layer.count_ones_within(20));
    assert_eq!(Some(20), layer.count_ones_within(usize::MAX));
    assert_eq!(None, layer.count_ones_within(19));
    assert_eq!(None, layer.count_ones_within(0));
}

#[test]
fn slice_count_ones() {
    let cells: Vec<Cell> = vec![0b1011.into(), 0.into(), 0xffff.into(), 0x8000.into()];
    assert_eq!(20, count_ones(&cells));
    assert_eq!(0, count_ones_until(&cells, 0));
    assert_eq!(3, count_ones_until(&cells, 1));
    assert_eq!(3, count_ones_until(&cells, 2));
    assert_eq!(19, count_ones_until(&cells, 3));
    assert_eq!(20, count_ones_until(&cells, 4));
}

#[test]
fn layer_count_ones_until_counts_partial_cell() {
    let layer = layer_of(&[0b1011, 0, 0xffff, 0x8000]);
    assert_eq!(0, layer.count_ones_until(0));
    assert_eq!(1, layer.count_ones_until(1));
    assert_eq!(2, layer.count_ones_until(3));
    assert_eq!(3, layer.count_ones_until(4));
    assert_eq!(3, layer.count_ones_until(16));
    assert_eq!(3, layer.count_ones_until(32));
    assert_eq!(8, layer.count_ones_until(37));
    assert_eq!(19, layer.count_ones_until(48));
    assert_eq!(19, layer.count_ones_until(63));
    assert_eq!(20, layer.count_ones_until(64));
}

#[test]
fn layer_bits_per_level() {
    assert_eq!(16, Layer::layer_bits(0));
    assert_eq!(256, Layer::layer_bits(1));
    assert_eq!(4096, Layer::layer_bits(2));
    assert_eq!(1 << 60, Layer::layer_bits(14));
}

#[test]
fn layer_cell_bit_picks_slot() {
    let layer = layer_of(&[0]);
    assert_eq!(5, layer.cell_bit((0, 0, 0x35)));
    assert_eq!(3, layer.cell_bit((1, 0, 0x35)));
    assert_eq!(0, layer.cell_bit((2, 0, 0x35)));
    assert_eq!(0xa, layer.cell_bit((2, 7, 0xabc)));
    assert_eq!(0xf, layer.cell_bit((15, 0, usize::MAX)));
    assert_eq!(0, layer.cell_bit((16, 0, usize::MAX)));
    assert_eq!(0, layer.cell_bit((usize::MAX, 0, usize::MAX)));
}

#[test]
fn layer_get_gives_rank_above_leaves() {
    let layer = layer_of(&[0b1011, 0, 0xffff, 0x8000]);
    // bit 0x25: slot 2 on height 1, slot 5 on height 0
    assert_eq!((5, true), layer.get((1, 2, 0x25)));
    assert_eq!((2, false), layer.get((1, 0, 0x25)));
    assert_eq!((3, false), layer.get((1, 1, 0x25)));
    assert_eq!((19, false), layer.get((1, 3, 0x25)));
    // on the leaves no child offset is computed
    assert_eq!((0, true), layer.get((0, 2, 0x25)));
    assert_eq!((0, false), layer.get((0, 0, 0x25)));
}

#[test]
fn layer_set_reports_new_bits() {
    let mut layer = layer_of(&[0b1011, 0]);
    assert_eq!((2, true), layer.set((1, 0, 0x20)));
    assert_eq!(vec![0b1111, 0], layer.to_vec());
    assert_eq!((2, false), layer.set((1, 0, 0x20)));
    assert_eq!(vec![0b1111, 0], layer.to_vec());
    assert_eq!((0, true), layer.set((0, 1, 0x2f)));
    assert_eq!(vec![0b1111, 0x8000], layer.to_vec());
}

#[test]
fn layer_unset_clears_one_bit() {
    let mut layer = layer_of(&[0b1011, 0xffff]);
    layer.unset((0, 1, 4));
    assert_eq!(vec![0b1011, 0xffef], layer.to_vec());
    layer.unset((0, 0, 2));
    assert_eq!(vec![0b1011, 0xffef], layer.to_vec());
    layer.unset((1, 0, 0x10));
    assert_eq!(vec![0b1001, 0xffef], layer.to_vec());
}

#[test]
fn layer_insert_cell_shifts() {
    let mut layer = layer_of(&[1, 2, 3]);
    layer.insert_cell(1, Cell::from(9));
    assert_eq!(vec![1, 9, 2, 3], layer.to_vec());
    layer.insert_cell(4, Cell::from(7));
    assert_eq!(vec![1, 9, 2, 3, 7], layer.to_vec());
    layer.insert_cell(0, Cell::new());
    assert_eq!(vec![0, 1, 9, 2, 3, 7], layer.to_vec());
}
