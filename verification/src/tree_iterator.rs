//! Walking the bits of a tree in order: every bit with its value, or only
//! the set bits by their index.
//!
//! An iterator takes a copy of the leaf cells when it is made. What happens
//! to the tree afterwards does not reach it.

use crate::cell::{bit_of, Cell};
use crate::model::{
    bit_at, is_leaf_map, lemma_place_injective, lemma_place_monotone, lemma_place_range, place,
    well_formed,
};
use crate::power::pow16;
use crate::tree::Tree;
use core::ops::Range;
use vstd::prelude::*;

verus! {

/// The value that the leaf cells `leaves`, each paired with the first bit
/// that it covers, give to bit `i`: the bit of the cell that covers `i`, and
/// unset where no cell covers it.
pub open spec fn leaf_bit(leaves: Seq<(usize, Cell)>, i: nat) -> bool {
    exists|k: int|
        0 <= k < leaves.len() && (#[trigger] leaves[k]).0 <= i < leaves[k].0 + 16 && bit_of(
            leaves[k].1@,
            (i - leaves[k].0) as nat,
        )
}

/// Whether the leaf cells come in the order of the bits that they cover,
/// without overlap, and end within the range of `usize`.
pub open spec fn ordered(leaves: Seq<(usize, Cell)>) -> bool {
    &&& forall|j: int, k: int|
        0 <= j < k < leaves.len() ==> (#[trigger] leaves[j]).0 + 16 <= (#[trigger] leaves[k]).0
    &&& forall|k: int| 0 <= k < leaves.len() ==> (#[trigger] leaves[k]).0 + 16 <= usize::MAX
}

/// The values of the bits from `from` up to, not including, `to`.
pub open spec fn bools_between(bit: spec_fn(nat) -> bool, from: nat, to: nat) -> Seq<bool> {
    Seq::new(
        if from <= to {
            (to - from) as nat
        } else {
            0
        },
        |j: int| bit((from + j) as nat),
    )
}

/// The indices of the set bits from `from` up to, not including, `to`, in
/// rising order.
pub open spec fn set_indices(bit: spec_fn(nat) -> bool, from: nat, to: nat) -> Seq<usize>
    decreases to - from,
{
    if from >= to {
        Seq::empty()
    } else if bit(from) {
        seq![from as usize] + set_indices(bit, from + 1, to)
    } else {
        set_indices(bit, from + 1, to)
    }
}

/// The leaf cells of a tree, paired with where they start, come in order
/// and end within the capacity of the tree.
pub proof fn lemma_leaf_map_ordered(layers: Seq<Seq<u16>>, leaves: Seq<(usize, Cell)>)
    requires
        well_formed(layers),
        pow16(layers.len()) <= usize::MAX,
        is_leaf_map(layers, leaves),
    ensures
        ordered(leaves),
{
    let last = (layers.len() - 1) as nat;
    assert(pow16(1) == 16) by {
        assert(pow16(0) == 1);
    }
    assert forall|j: int, k: int| 0 <= j < k < leaves.len() implies (#[trigger] leaves[j]).0 + 16
        <= (#[trigger] leaves[k]).0 by {
        let nj = (leaves[j].0 / 16) as nat;
        let nk = (leaves[k].0 / 16) as nat;
        if nj > nk {
            lemma_place_monotone(layers, last, nk, nj);
        } else if nj == nk {
            assert(false);
        }
    }
    assert forall|k: int| 0 <= k < leaves.len() implies (#[trigger] leaves[k]).0 + 16
        <= usize::MAX by {
        let n = (leaves[k].0 / 16) as nat;
        lemma_place_range(layers, last, n);
        crate::power::lemma_pow16_adds(last, 1);
        assert(leaves[k].0 + 16 <= pow16(last) * 16) by (nonlinear_arith)
            requires
                leaves[k].0 == 16 * n,
                n + 1 <= pow16(last),
        ;
    }
}

/// The leaf cells of a tree give every bit the value that it has in the
/// tree.
pub proof fn lemma_leaf_map_bits(layers: Seq<Seq<u16>>, leaves: Seq<(usize, Cell)>, i: nat)
    requires
        well_formed(layers),
        is_leaf_map(layers, leaves),
    ensures
        leaf_bit(leaves, i) == bit_at(layers, i),
{
    let last = (layers.len() - 1) as nat;
    let cells = layers[last as int];
    let up = place(layers, last, i / 16);
    assert(pow16(1) == 16) by {
        assert(pow16(0) == 1);
    }
    crate::model::lemma_place_bounds(layers, last, i / 16);
    if bit_at(layers, i) {
        let k = up.0;
        let n = (leaves[k].0 / 16) as nat;
        lemma_place_injective(layers, last, n, i / 16);
        assert(leaves[k].0 <= i < leaves[k].0 + 16 && bit_of(
            leaves[k].1@,
            (i - leaves[k].0) as nat,
        ));
    }
    if leaf_bit(leaves, i) {
        let k = choose|k: int|
            0 <= k < leaves.len() && (#[trigger] leaves[k]).0 <= i < leaves[k].0 + 16 && bit_of(
                leaves[k].1@,
                (i - leaves[k].0) as nat,
            );
        assert(leaves[k].0 / 16 == i / 16);
        assert((i - leaves[k].0) as nat == i % 16);
    }
}

/// Unset bits at the front of a range add no index: the set bits from `from`
/// on are those from `mid` on where every bit between the two is unset.
pub proof fn lemma_set_indices_skip(bit: spec_fn(nat) -> bool, from: nat, mid: nat, to: nat)
    requires
        from <= mid,
        forall|i: nat| from <= i < mid && i < to ==> !#[trigger] bit(i),
    ensures
        set_indices(bit, from, to) == set_indices(bit, mid, to),
    decreases mid - from,
{
    if from < mid {
        lemma_set_indices_skip(bit, from + 1, mid, to);
    }
}

/// The indices depend on the values of the bits alone.
pub proof fn lemma_set_indices_same(
    f: spec_fn(nat) -> bool,
    g: spec_fn(nat) -> bool,
    from: nat,
    to: nat,
)
    requires
        forall|i: nat| from <= i < to ==> #[trigger] f(i) == g(i),
    ensures
        set_indices(f, from, to) == set_indices(g, from, to),
    decreases to - from,
{
    if from < to {
        lemma_set_indices_same(f, g, from + 1, to);
    }
}

/// What the indices are: every one of them lies in the range and has its
/// bit set, they rise strictly, and no set bit of the range is missing.
pub proof fn lemma_set_indices(bit: spec_fn(nat) -> bool, from: nat, to: nat)
    requires
        to <= usize::MAX,
    ensures
        forall|j: int|
            0 <= j < set_indices(bit, from, to).len() ==> from <= (#[trigger] set_indices(
                bit,
                from,
                to,
            )[j]) < to && bit(set_indices(bit, from, to)[j] as nat),
        forall|j: int, k: int|
            0 <= j < k < set_indices(bit, from, to).len() ==> set_indices(bit, from, to)[j]
                < set_indices(bit, from, to)[k],
        forall|i: nat|
            from <= i < to && #[trigger] bit(i) ==> set_indices(bit, from, to).contains(i as usize),
    decreases to - from,
{
    let all = set_indices(bit, from, to);
    if from < to {
        let rest = set_indices(bit, from + 1, to);
        lemma_set_indices(bit, from + 1, to);
        if bit(from) {
            assert(all[0] == from as usize);
            assert forall|j: int| 0 < j < all.len() implies all[j] == rest[j - 1] by {}
            assert forall|i: nat| from <= i < to && #[trigger] bit(i) implies all.contains(
                i as usize,
            ) by {
                if i == from {
                    assert(all[0] == i as usize);
                } else {
                    let j = choose|j: int| 0 <= j < rest.len() && rest[j] == i as usize;
                    assert(all[j + 1] == i as usize);
                }
            }
        }
    }
}

/// Whether the cursor `cur` into the ordered leaf cells `leaves` fits the
/// bit index `index`: the cells before the cursor end at or before the
/// index, and the cell at the cursor ends after it.
pub open spec fn cursor_fits(leaves: Seq<(usize, Cell)>, cur: int, index: nat) -> bool {
    &&& 0 <= cur <= leaves.len()
    &&& forall|k: int| 0 <= k < cur ==> (#[trigger] leaves[k]).0 + 16 <= index
    &&& cur < leaves.len() ==> index < leaves[cur].0 + 16
}

/// With the cursor in place, the value of the bit at the index is read in
/// the cell at the cursor, and is unset where that cell starts later or
/// no cell is left.
pub proof fn lemma_cursor_bit(leaves: Seq<(usize, Cell)>, cur: int, index: nat)
    requires
        ordered(leaves),
        cursor_fits(leaves, cur, index),
    ensures
        leaf_bit(leaves, index) == (cur < leaves.len() && leaves[cur].0 <= index && bit_of(
            leaves[cur].1@,
            (index - leaves[cur].0) as nat,
        )),
{
    if leaf_bit(leaves, index) {
        let k = choose|k: int|
            0 <= k < leaves.len() && (#[trigger] leaves[k]).0 <= index < leaves[k].0 + 16
                && bit_of(leaves[k].1@, (index - leaves[k].0) as nat);
        if k < cur {
            assert(leaves[k].0 + 16 <= index);
        } else if k > cur {
            assert(leaves[cur].0 + 16 <= leaves[k].0);
        }
    }
}

/// With the cursor in place, every bit from the index up to the start of
/// the cell at the cursor is unset, and so is every bit from the index on
/// where no cell is left.
pub proof fn lemma_cursor_gap(leaves: Seq<(usize, Cell)>, cur: int, index: nat, i: nat)
    requires
        ordered(leaves),
        cursor_fits(leaves, cur, index),
        index <= i,
        cur < leaves.len() ==> i < leaves[cur].0,
    ensures
        !leaf_bit(leaves, i),
{
    if leaf_bit(leaves, i) {
        let k = choose|k: int|
            0 <= k < leaves.len() && (#[trigger] leaves[k]).0 <= i < leaves[k].0 + 16 && bit_of(
                leaves[k].1@,
                (i - leaves[k].0) as nat,
            );
        if k < cur {
            assert(leaves[k].0 + 16 <= index);
        } else if k > cur {
            assert(leaves[cur].0 + 16 <= leaves[k].0);
        }
    }
}

/// Walks the bits of a range in order and gives the value of each.
///
/// Bits that no leaf cell covers are unset, before, between and after the
/// cells, up to the end of the range.
pub struct LeafIterator {
    index: usize,
    bits: usize,
    leaf_layer: Vec<(usize, Cell)>,
    leaf_layer_cur: usize,
}

impl View for LeafIterator {
    type V = Seq<bool>;

    /// The values that are still to come.
    closed spec fn view(&self) -> Seq<bool> {
        bools_between(|i: nat| leaf_bit(self.leaf_layer@, i), self.index as nat, self.bits as nat)
    }
}

impl LeafIterator {
    /// The invariant of the iterator.
    pub closed spec fn wf(&self) -> bool {
        &&& ordered(self.leaf_layer@)
        &&& cursor_fits(self.leaf_layer@, self.leaf_layer_cur as int, self.index as nat)
    }

    /// The value of the next bit, or `None` at the end of the range.
    pub fn next(&mut self) -> (r: Option<bool>)
        requires
            old(self).wf(),
        ensures
            final(self).wf(),
            old(self)@.len() == 0 ==> r is None && final(self)@ == old(self)@,
            old(self)@.len() > 0 ==> r == Some(old(self)@[0]) && final(self)@ == old(self)@.skip(1),
    {
        if self.index >= self.bits {
            return None;
        }
        proof {
            lemma_cursor_bit(self.leaf_layer@, self.leaf_layer_cur as int, self.index as nat);
        }
        if self.leaf_layer_cur >= self.leaf_layer.len() {
            // Past the last leaf cell: unset bits up to the end of the range.
            self.index = self.index + 1;
            assert(self@ =~= old(self)@.skip(1));
            return Some(false);
        }
        let (offset, cell) = self.leaf_layer[self.leaf_layer_cur];
        if self.index < offset {
            // Before the next leaf cell: unset bits up to where it starts.
            self.index = self.index + 1;
            assert(self@ =~= old(self)@.skip(1));
            return Some(false);
        }
        let bit_index = self.index - offset;
        let value = cell.get(bit_index);
        self.index = self.index + 1;
        // The last bit of the cell has been read: on to the next cell.
        if self.index >= offset + Cell::bits() {
            self.leaf_layer_cur = self.leaf_layer_cur + 1;
        }
        assert(self@ =~= old(self)@.skip(1));
        Some(value)
    }

    /// The values of all bits that are still to come.
    pub fn collect(self) -> (r: Vec<bool>)
        requires
            self.wf(),
        ensures
            r@ == self@,
    {
        let mut it = self;
        let mut r: Vec<bool> = Vec::new();
        loop
            invariant
                it.wf(),
                r@ + it@ == self@,
            ensures
                r@ == self@,
            decreases it@.len(),
        {
            let ghost rest = it@;
            match it.next() {
                Some(b) => {
                    r.push(b);
                    assert(r@ + it@ =~= self@) by {
                        assert(rest =~= seq![b] + rest.skip(1));
                    }
                },
                None => {
                    assert(r@ =~= r@ + it@);
                    break ;
                },
            }
        }
        r
    }
}

/// Walks the set bits of a range in order and gives the index of each.
///
/// Ranges that no leaf cell covers hold no set bit and are passed over in
/// one step.
pub struct LeafIteratorOnes {
    index: usize,
    bits: usize,
    leaf_layer: Vec<(usize, Cell)>,
    leaf_layer_cur: usize,
}

impl View for LeafIteratorOnes {
    type V = Seq<usize>;

    /// The indices that are still to come.
    closed spec fn view(&self) -> Seq<usize> {
        set_indices(|i: nat| leaf_bit(self.leaf_layer@, i), self.index as nat, self.bits as nat)
    }
}

impl LeafIteratorOnes {
    /// The invariant of the iterator.
    pub closed spec fn wf(&self) -> bool {
        &&& ordered(self.leaf_layer@)
        &&& cursor_fits(self.leaf_layer@, self.leaf_layer_cur as int, self.index as nat)
    }

    /// The index of the next set bit, or `None` where no set bit is left in
    /// the range.
    pub fn next(&mut self) -> (r: Option<usize>)
        requires
            old(self).wf(),
        ensures
            final(self).wf(),
            old(self)@.len() == 0 ==> r is None && final(self)@ == old(self)@,
            old(self)@.len() > 0 ==> r == Some(old(self)@[0]) && final(self)@ == old(self)@.skip(1),
    {
        let ghost bit = |i: nat| leaf_bit(self.leaf_layer@, i);
        loop
            invariant
                self.wf(),
                self.bits == old(self).bits,
                self.leaf_layer@ == old(self).leaf_layer@,
                bit == (|i: nat| leaf_bit(self.leaf_layer@, i)),
                self@ == old(self)@,
            decreases self.bits - self.index,
        {
            if self.index >= self.bits {
                return None;
            }
            if self.leaf_layer_cur >= self.leaf_layer.len() {
                proof {
                    assert forall|i: nat| self.index <= i < self.bits implies !#[trigger] bit(
                        i,
                    ) by {
                        lemma_cursor_gap(
                            self.leaf_layer@,
                            self.leaf_layer_cur as int,
                            self.index as nat,
                            i,
                        );
                    }
                    lemma_set_indices_skip(
                        bit,
                        self.index as nat,
                        self.bits as nat,
                        self.bits as nat,
                    );
                }
                return None;
            }
            let (offset, cell) = self.leaf_layer[self.leaf_layer_cur];
            if self.index < offset {
                // Nothing is set before the next leaf cell.
                let to = if offset < self.bits {
                    offset
                } else {
                    self.bits
                };
                proof {
                    assert forall|i: nat| self.index <= i < to implies !#[trigger] bit(i) by {
                        lemma_cursor_gap(
                            self.leaf_layer@,
                            self.leaf_layer_cur as int,
                            self.index as nat,
                            i,
                        );
                    }
                    lemma_set_indices_skip(bit, self.index as nat, to as nat, self.bits as nat);
                }
                if offset >= self.bits {
                    return None;
                }
                self.index = offset;
            }
            let idx = self.index;
            proof {
                lemma_cursor_bit(self.leaf_layer@, self.leaf_layer_cur as int, idx as nat);
            }
            self.index = self.index + 1;
            let bit_index = idx - offset;
            if self.index >= offset + Cell::bits() {
                self.leaf_layer_cur = self.leaf_layer_cur + 1;
            }
            if cell.get(bit_index) {
                assert(self@ =~= old(self)@.skip(1));
                return Some(idx);
            }
        }
    }

    /// The indices of all set bits that are still to come.
    pub fn collect(self) -> (r: Vec<usize>)
        requires
            self.wf(),
        ensures
            r@ == self@,
    {
        let mut it = self;
        let mut r: Vec<usize> = Vec::new();
        loop
            invariant
                it.wf(),
                r@ + it@ == self@,
            ensures
                r@ == self@,
            decreases it@.len(),
        {
            let ghost rest = it@;
            match it.next() {
                Some(i) => {
                    r.push(i);
                    assert(r@ + it@ =~= self@) by {
                        assert(rest =~= seq![i] + rest.skip(1));
                    }
                },
                None => {
                    assert(r@ =~= r@ + it@);
                    break ;
                },
            }
        }
        r
    }
}

impl Tree {
    /// The values of the bits from `from` up to, not including, `to`. Bits
    /// beyond the capacity of the tree are unset.
    pub open spec fn spec_bools(&self, from: nat, to: nat) -> Seq<bool> {
        bools_between(|i: nat| self.spec_get(i), from, to)
    }

    /// The indices of the set bits from `from` up to, not including, `to`,
    /// in rising order.
    pub open spec fn spec_ones(&self, from: nat, to: nat) -> Seq<usize> {
        set_indices(|i: nat| self.spec_get(i), from, to)
    }

    /// An iterator over the values of all bits of the tree, from bit 0 on.
    pub fn iter(&self) -> (it: LeafIterator)
        requires
            self.wf(),
            self.spec_bits() <= usize::MAX,
        ensures
            it.wf(),
            it@ == self.spec_bools(0, self.spec_bits()),
    {
        self.iter_from_to(0, self.bits())
    }

    /// An iterator over the indices of all set bits of the tree, in rising
    /// order.
    pub fn iter_ones(&self) -> (it: LeafIteratorOnes)
        requires
            self.wf(),
            self.spec_bits() <= usize::MAX,
        ensures
            it.wf(),
            it@ == self.spec_ones(0, self.spec_bits()),
    {
        self.iter_ones_from_to(0, self.bits())
    }

    /// An iterator over the values of the bits of `range`.
    pub fn iter_range(&self, range: Range<usize>) -> (it: LeafIterator)
        requires
            self.wf(),
            self.spec_bits() <= usize::MAX,
        ensures
            it.wf(),
            it@ == self.spec_bools(range.start as nat, range.end as nat),
    {
        self.iter_from_to(range.start, range.end)
    }

    /// An iterator over the indices of the set bits of `range`, in rising
    /// order.
    pub fn iter_ones_range(&self, range: Range<usize>) -> (it: LeafIteratorOnes)
        requires
            self.wf(),
            self.spec_bits() <= usize::MAX,
        ensures
            it.wf(),
            it@ == self.spec_ones(range.start as nat, range.end as nat),
    {
        self.iter_ones_from_to(range.start, range.end)
    }

    /// Moves a cursor forward over the leaf cells that end at or before
    /// bit `from`.
    fn _scan_iter_forward(&self, leaves: &Vec<(usize, Cell)>, start: usize, from: usize) -> (r:
        usize)
        requires
            ordered(leaves@),
            start <= leaves@.len(),
            forall|k: int| 0 <= k < start ==> (#[trigger] leaves@[k]).0 + 16 <= from,
        ensures
            cursor_fits(leaves@, r as int, from as nat),
    {
        let mut cur = start;
        while cur < leaves.len()
            invariant
                ordered(leaves@),
                cur <= leaves@.len(),
                forall|k: int| 0 <= k < cur ==> (#[trigger] leaves@[k]).0 + 16 <= from,
            ensures
                cursor_fits(leaves@, cur as int, from as nat),
            decreases leaves@.len() - cur,
        {
            let (offset, _) = leaves[cur];
            if offset + Cell::bits() > from {
                break ;
            }
            cur = cur + 1;
        }
        cur
    }

    /// An iterator over the values of the bits from `from` up to, not
    /// including, `to`.
    fn iter_from_to(&self, from: usize, to: usize) -> (it: LeafIterator)
        requires
            self.wf(),
            self.spec_bits() <= usize::MAX,
        ensures
            it.wf(),
            it@ == self.spec_bools(from as nat, to as nat),
    {
        let leaf_layer = self.leaf_layer();
        proof {
            lemma_leaf_map_ordered(self@, leaf_layer@);
        }
        let mut leaf_layer_cur: usize = 0;
        if from >= Cell::bits() {
            // Pass over the leaf cells that end before the range begins.
            if leaf_layer.len() > 0 {
                let (offset, _) = leaf_layer[0];
                if offset + Cell::bits() <= from {
                    leaf_layer_cur = self._scan_iter_forward(&leaf_layer, 1, from);
                }
            }
        }
        let it = LeafIterator { index: from, bits: to, leaf_layer, leaf_layer_cur };
        proof {
            assert forall|i: nat| leaf_bit(it.leaf_layer@, i) == self.spec_get(i) by {
                lemma_leaf_map_bits(self@, it.leaf_layer@, i);
            }
            assert(it@ =~= self.spec_bools(from as nat, to as nat));
        }
        it
    }

    /// An iterator over the indices of the set bits from `from` up to, not
    /// including, `to`.
    fn iter_ones_from_to(&self, from: usize, to: usize) -> (it: LeafIteratorOnes)
        requires
            self.wf(),
            self.spec_bits() <= usize::MAX,
        ensures
            it.wf(),
            it@ == self.spec_ones(from as nat, to as nat),
    {
        let leaf_layer = self.leaf_layer();
        proof {
            lemma_leaf_map_ordered(self@, leaf_layer@);
        }
        let mut leaf_layer_cur: usize = 0;
        if from >= Cell::bits() {
            if leaf_layer.len() > 0 {
                let (offset, _) = leaf_layer[0];
                if offset + Cell::bits() <= from {
                    leaf_layer_cur = self._scan_iter_forward(&leaf_layer, 1, from);
                }
            }
        }
        // No bit is set before the first leaf cell that is left.
        let mut index = from;
        if leaf_layer_cur < leaf_layer.len() {
            let (offset, _) = leaf_layer[leaf_layer_cur];
            if index < offset {
                index = offset;
            }
        }
        let it = LeafIteratorOnes { index, bits: to, leaf_layer, leaf_layer_cur };
        proof {
            let bit = |i: nat| leaf_bit(it.leaf_layer@, i);
            assert forall|i: nat| from <= i < index implies !#[trigger] bit(i) by {
                lemma_cursor_gap(it.leaf_layer@, leaf_layer_cur as int, from as nat, i);
            }
            lemma_set_indices_skip(bit, from as nat, index as nat, to as nat);
            assert forall|i: nat| from <= i < to implies #[trigger] bit(i) == self.spec_get(
                i,
            ) by {
                lemma_leaf_map_bits(self@, it.leaf_layer@, i);
            }
            lemma_set_indices_same(bit, |i: nat| self.spec_get(i), from as nat, to as nat);
        }
        it
    }
}

} // verus!
