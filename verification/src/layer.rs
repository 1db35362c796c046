//! One level of the tree: the cells of that level from left to right, and
//! the rank arithmetic that finds a child's place in the level below.

use crate::cell::{
    bit_of, lemma_ones_below_mono, lemma_ones_below_with_bit, lemma_ones_below_zero, ones,
    ones_below, with_bit, Cell, CellRepr,
};
use crate::power::{lemma_pow16_exceeds, lemma_pow16_fits, lemma_pow16_is_pow2, pow16};
use vstd::arithmetic::power2::{lemma2_to64, lemma_pow2_adds};
use vstd::bits::{lemma_usize_shl_is_mul, lemma_usize_shr_is_div};
use vstd::prelude::*;

verus! {

/// The raw words of a run of cells.
pub open spec fn values(cells: Seq<Cell>) -> Seq<u16> {
    cells.map_values(|c: Cell| c@)
}

/// The number of set bits in all of `cells`.
pub open spec fn total_ones(cells: Seq<u16>) -> nat
    decreases cells.len(),
{
    if cells.len() == 0 {
        0
    } else {
        total_ones(cells.drop_last()) + ones(cells.last())
    }
}

/// The number of set bits that come before slot `slot` of cell `cell` when
/// the cells are read left to right: all bits of the cells before `cell`,
/// and the bits of that cell below `slot`.
pub open spec fn rank(cells: Seq<u16>, cell: int, slot: nat) -> nat {
    total_ones(cells.take(cell)) + ones_below(cells[cell], slot)
}

/// Which of the 16 slots of a cell `height` levels above the leaves covers
/// bit `bit`.
pub open spec fn slot_of(height: nat, bit: nat) -> nat {
    (bit / pow16(height)) % 16
}

/// The count of a concatenation is the sum of the counts.
pub proof fn lemma_total_ones_concat(a: Seq<u16>, b: Seq<u16>)
    ensures
        total_ones(a + b) == total_ones(a) + total_ones(b),
    decreases b.len(),
{
    if b.len() == 0 {
        assert(a + b =~= a);
    } else {
        assert((a + b).drop_last() =~= a + b.drop_last());
        lemma_total_ones_concat(a, b.drop_last());
    }
}

/// A single cell counts its own bits.
pub proof fn lemma_total_ones_single(v: u16)
    ensures
        total_ones(seq![v]) == ones(v),
{
    assert(seq![v].drop_last() =~= Seq::<u16>::empty());
    assert(total_ones(seq![v].drop_last()) == 0);
    assert(seq![v].last() == v);
}

/// Taking one more cell adds that cell's bits to the count.
pub proof fn lemma_total_ones_take_step(cells: Seq<u16>, i: int)
    requires
        0 <= i < cells.len(),
    ensures
        total_ones(cells.take(i + 1)) == total_ones(cells.take(i)) + ones(cells[i]),
{
    assert(cells.take(i + 1).drop_last() =~= cells.take(i));
}

/// A longer prefix counts at least as much, and no prefix counts more than
/// the whole.
pub proof fn lemma_total_ones_take_mono(cells: Seq<u16>, i: int, j: int)
    requires
        0 <= i <= j <= cells.len(),
    ensures
        total_ones(cells.take(i)) <= total_ones(cells.take(j)),
        total_ones(cells.take(j)) <= total_ones(cells),
    decreases cells.len() - i,
{
    assert(cells.take(cells.len() as int) =~= cells);
    if i < j {
        lemma_total_ones_take_step(cells, i);
        lemma_total_ones_take_mono(cells, i + 1, j);
    }
    if j < cells.len() {
        lemma_total_ones_take_step(cells, j);
        lemma_total_ones_take_mono(cells, j + 1, cells.len() as int);
    }
}

/// The rank of a slot never exceeds the count of the cells up to and with
/// its own, and stays below the total when the slot's bit is set.
pub proof fn lemma_rank_bounds(cells: Seq<u16>, cell: int, slot: nat)
    requires
        0 <= cell < cells.len(),
        slot <= 16,
    ensures
        total_ones(cells.take(cell)) <= rank(cells, cell, slot),
        rank(cells, cell, slot) <= total_ones(cells.take(cell + 1)),
        rank(cells, cell, slot) <= total_ones(cells),
        bit_of(cells[cell], slot) ==> rank(cells, cell, slot) < total_ones(cells),
{
    lemma_total_ones_take_step(cells, cell);
    lemma_total_ones_take_mono(cells, cell + 1, cells.len() as int);
    lemma_ones_below_mono(cells[cell], slot, 16);
}

/// Rank follows the reading order of the slots, and passing a set bit
/// raises it.
pub proof fn lemma_rank_order(cells: Seq<u16>, c1: int, s1: nat, c2: int, s2: nat)
    requires
        0 <= c1 < cells.len(),
        0 <= c2 < cells.len(),
        s1 <= 16,
        s2 <= 16,
        c1 < c2 || (c1 == c2 && s1 <= s2),
    ensures
        rank(cells, c1, s1) <= rank(cells, c2, s2),
        bit_of(cells[c1], s1) && (c1 < c2 || s1 < s2) ==> rank(cells, c1, s1) < rank(cells, c2, s2),
{
    if c1 < c2 {
        lemma_total_ones_take_step(cells, c1);
        lemma_total_ones_take_mono(cells, c1 + 1, c2);
        lemma_ones_below_mono(cells[c1], s1, 16);
    } else {
        lemma_ones_below_mono(cells[c1], s1, s2);
    }
}

/// Replacing one cell changes the count by the difference of the two cells.
pub proof fn lemma_total_ones_update(cells: Seq<u16>, cell: int, v: u16)
    requires
        0 <= cell < cells.len(),
    ensures
        total_ones(cells.update(cell, v)) + ones(cells[cell]) == total_ones(cells) + ones(v),
{
    let before = cells.take(cell);
    let after = cells.skip(cell + 1);
    assert(cells =~= before + seq![cells[cell]] + after);
    assert(cells.update(cell, v) =~= before + seq![v] + after);
    lemma_total_ones_concat(before + seq![cells[cell]], after);
    lemma_total_ones_concat(before, seq![cells[cell]]);
    lemma_total_ones_concat(before + seq![v], after);
    lemma_total_ones_concat(before, seq![v]);
    lemma_total_ones_single(cells[cell]);
    lemma_total_ones_single(v);
}

/// Inserting a cell adds its bits to the count.
pub proof fn lemma_total_ones_insert(cells: Seq<u16>, at: int, v: u16)
    requires
        0 <= at <= cells.len(),
    ensures
        total_ones(cells.insert(at, v)) == total_ones(cells) + ones(v),
{
    let before = cells.take(at);
    let after = cells.skip(at);
    assert(cells =~= before + after);
    assert(cells.insert(at, v) =~= before + seq![v] + after);
    lemma_total_ones_concat(before, after);
    lemma_total_ones_concat(before + seq![v], after);
    lemma_total_ones_concat(before, seq![v]);
    lemma_total_ones_single(v);
}

/// How the count of a prefix moves when one cell is replaced: prefixes that
/// end at or before the cell keep their count, longer ones change by the
/// difference of the two cells.
pub proof fn lemma_take_update(cells: Seq<u16>, cell: int, v: u16, k: int)
    requires
        0 <= cell < cells.len(),
        0 <= k <= cells.len(),
    ensures
        k <= cell ==> total_ones(cells.update(cell, v).take(k)) == total_ones(cells.take(k)),
        k > cell ==> total_ones(cells.update(cell, v).take(k)) + ones(cells[cell]) == total_ones(
            cells.take(k),
        ) + ones(v),
{
    if k <= cell {
        assert(cells.update(cell, v).take(k) =~= cells.take(k));
    } else {
        assert(cells.update(cell, v).take(k) =~= cells.take(k).update(cell, v));
        lemma_total_ones_update(cells.take(k), cell, v);
    }
}

/// How the count of a prefix moves when a cell is inserted: prefixes that
/// end at or before the new cell keep their count, longer ones hold the
/// new cell and one cell less of the old ones.
pub proof fn lemma_take_insert(cells: Seq<u16>, at: int, v: u16, k: int)
    requires
        0 <= at <= cells.len(),
        0 <= k <= cells.len() + 1,
    ensures
        k <= at ==> total_ones(cells.insert(at, v).take(k)) == total_ones(cells.take(k)),
        k > at ==> total_ones(cells.insert(at, v).take(k)) == total_ones(cells.take(k - 1)) + ones(
            v,
        ),
{
    if k <= at {
        assert(cells.insert(at, v).take(k) =~= cells.take(k));
    } else {
        assert(cells.insert(at, v).take(k) =~= cells.take(k - 1).insert(at, v));
        lemma_total_ones_insert(cells.take(k - 1), at, v);
    }
}

/// Where the child in slot `slot` sits in the level below, for a parent
/// that sits at `up.0` of `cells` if `up.1` holds, and that would have to be
/// inserted at `up.0` if it does not.
///
/// The child has a cell when the parent has one with the slot set, and its
/// offset is then the rank of the slot. A child without a cell is given the
/// offset at which its cell would have to be inserted.
pub open spec fn child_place(cells: Seq<u16>, up: (int, bool), slot: nat) -> (int, bool) {
    if up.1 {
        (rank(cells, up.0, slot) as int, bit_of(cells[up.0], slot))
    } else {
        (total_ones(cells.take(up.0)) as int, false)
    }
}

/// Whether `at` is a place of the level `cells`: the offset of one of its
/// cells, or an offset at which a cell can be inserted.
pub open spec fn is_place(cells: Seq<u16>, at: (int, bool)) -> bool {
    0 <= at.0 <= cells.len() && (at.1 ==> at.0 < cells.len())
}

/// The level `cells` after slot `slot` has been set at `at`: in the cell
/// that is there, or in a new cell inserted there.
pub open spec fn with_slot_set(cells: Seq<u16>, at: (int, bool), slot: nat) -> Seq<u16> {
    if at.1 {
        cells.update(at.0, with_bit(cells[at.0], slot, true))
    } else {
        cells.insert(at.0, with_bit(0, slot, true))
    }
}

/// The offset to which the cell at offset `k` moves when a cell is set or
/// inserted at `at`: an inserted cell pushes the cells from its offset on
/// one further.
pub open spec fn shifted(k: int, at: (int, bool)) -> int {
    if !at.1 && k >= at.0 {
        k + 1
    } else {
        k
    }
}

/// A word with a single bit set counts one.
pub proof fn lemma_ones_single_bit(slot: nat)
    requires
        slot < 16,
    ensures
        ones(with_bit(0, slot, true)) == 1,
        forall|s: nat| bit_of(with_bit(0, slot, true), s) == (s == slot),
        forall|s: nat| s <= slot ==> ones_below(with_bit(0, slot, true), s) == 0,
{
    lemma_ones_below_with_bit(0, slot, true, 16);
    lemma_ones_below_zero(16);
    crate::cell::lemma_zero_bits(slot);
    assert forall|s: nat| bit_of(with_bit(0, slot, true), s) == (s == slot) by {
        crate::cell::lemma_with_bit(0, slot, true, s);
        crate::cell::lemma_zero_bits(s);
    }
    assert forall|s: nat| s <= slot implies ones_below(with_bit(0, slot, true), s) == 0 by {
        lemma_ones_below_with_bit(0, slot, true, s);
        lemma_ones_below_zero(s);
    }
}

/// Setting a slot adds one to the count of the level where the child had no
/// cell, and nothing where it had one; the level grows by a cell where the
/// parent had none.
pub proof fn lemma_with_slot_set_count(cells: Seq<u16>, at: (int, bool), slot: nat)
    requires
        is_place(cells, at),
        slot < 16,
    ensures
        with_slot_set(cells, at, slot).len() == cells.len() + (if at.1 {
            0nat
        } else {
            1nat
        }),
        total_ones(with_slot_set(cells, at, slot)) == total_ones(cells) + (if child_place(
            cells,
            at,
            slot,
        ).1 {
            0nat
        } else {
            1nat
        }),
{
    if at.1 {
        lemma_total_ones_update(cells, at.0, with_bit(cells[at.0], slot, true));
        lemma_ones_below_with_bit(cells[at.0], slot, true, 16);
    } else {
        lemma_total_ones_insert(cells, at.0, with_bit(0, slot, true));
        lemma_ones_single_bit(slot);
    }
}

/// Setting a slot in two steps: first an empty cell is inserted where the
/// parent had none, then the slot is set in the cell at the parent's
/// offset. The rank of the slot in the level made ready by the first step is
/// the child's place.
pub proof fn lemma_set_in_steps(cells: Seq<u16>, at: (int, bool), slot: nat)
    requires
        is_place(cells, at),
        slot < 16,
    ensures
        ({
            let ready = if at.1 {
                cells
            } else {
                cells.insert(at.0, 0u16)
            };
            &&& 0 <= at.0 < ready.len()
            &&& ready.update(at.0, with_bit(ready[at.0], slot, true)) == with_slot_set(
                cells,
                at,
                slot,
            )
            &&& child_place(cells, at, slot) == (
                rank(ready, at.0, slot) as int,
                bit_of(ready[at.0], slot),
            )
            &&& rank(ready, at.0, slot) <= total_ones(cells)
        }),
{
    if at.1 {
        lemma_rank_bounds(cells, at.0, slot);
    } else {
        let ready = cells.insert(at.0, 0u16);
        assert(ready.update(at.0, with_bit(0u16, slot, true)) =~= cells.insert(
            at.0,
            with_bit(0u16, slot, true),
        ));
        lemma_take_insert(cells, at.0, 0u16, at.0);
        lemma_ones_below_zero(slot);
        crate::cell::lemma_zero_bits(slot);
        lemma_total_ones_take_mono(cells, at.0, at.0);
    }
}

/// After a slot has been set at `at`, the children of that same parent: the
/// child in the slot that was set has a cell now, and the others are as
/// they were, moved by one where a new child came before them.
pub proof fn lemma_child_on_path(cells: Seq<u16>, at: (int, bool), slot: nat, s: nat)
    requires
        is_place(cells, at),
        slot < 16,
        s < 16,
    ensures
        ({
            let after = child_place(with_slot_set(cells, at, slot), (at.0, true), s);
            let before = child_place(cells, at, s);
            let set = child_place(cells, at, slot);
            &&& after.1 == (before.1 || s == slot)
            &&& after.1 ==> after.0 == (if s == slot {
                set.0
            } else {
                shifted(before.0, set)
            })
        }),
{
    let new = with_slot_set(cells, at, slot);
    let v0 = if at.1 {
        cells[at.0]
    } else {
        0u16
    };
    let w = with_bit(v0, slot, true);
    assert(new[at.0] == w);
    crate::cell::lemma_with_bit(v0, slot, true, s);
    lemma_ones_below_with_bit(v0, slot, true, s);
    if at.1 {
        lemma_take_update(cells, at.0, w, at.0);
        if s < slot {
            lemma_ones_below_mono(v0, s, slot);
        } else {
            lemma_ones_below_mono(v0, slot, s);
        }
    } else {
        lemma_take_insert(cells, at.0, w, at.0);
        lemma_ones_single_bit(slot);
        lemma_ones_below_zero(s);
        crate::cell::lemma_zero_bits(s);
    }
}

/// After a slot has been set at `at`, the children of another parent, which
/// sat at `up`: they are as they were, moved by one where a new child came
/// before them.
pub proof fn lemma_child_off_path(
    cells: Seq<u16>,
    at: (int, bool),
    slot: nat,
    up: int,
    s: nat,
)
    requires
        is_place(cells, at),
        slot < 16,
        s < 16,
        0 <= up < cells.len(),
        at.1 ==> up != at.0,
    ensures
        ({
            let after = child_place(with_slot_set(cells, at, slot), (shifted(up, at), true), s);
            let before = child_place(cells, (up, true), s);
            let set = child_place(cells, at, slot);
            &&& with_slot_set(cells, at, slot)[shifted(up, at)] == cells[up]
            &&& after.1 == before.1
            &&& after.1 ==> after.0 == shifted(before.0, set)
        }),
{
    let new = with_slot_set(cells, at, slot);
    let to = shifted(up, at);
    assert(new[to] == cells[up]);
    if at.1 {
        let w = with_bit(cells[at.0], slot, true);
        lemma_take_update(cells, at.0, w, up);
        lemma_ones_below_with_bit(cells[at.0], slot, true, 16);
        if up < at.0 {
            lemma_rank_order(cells, up, s, at.0, slot);
        } else {
            lemma_rank_order(cells, at.0, slot, up, s);
        }
    } else {
        let w = with_bit(0, slot, true);
        lemma_take_insert(cells, at.0, w, to);
        lemma_ones_single_bit(slot);
        if up < at.0 {
            lemma_total_ones_take_step(cells, up);
            lemma_total_ones_take_mono(cells, up + 1, at.0);
            lemma_ones_below_mono(cells[up], s, 16);
        } else {
            lemma_total_ones_take_mono(cells, at.0, up);
        }
    }
}

/// The number of set bits in all of `cells`.
pub fn count_ones(cells: &[Cell]) -> (r: usize)
    requires
        total_ones(values(cells@)) <= usize::MAX,
    ensures
        r == total_ones(values(cells@)),
{
    proof {
        assert(values(cells@).take(cells@.len() as int) =~= values(cells@));
    }
    count_ones_until(cells, cells.len())
}

/// The number of set bits in the first `idx` of `cells`.
pub fn count_ones_until(cells: &[Cell], idx: usize) -> (r: usize)
    requires
        idx <= cells@.len(),
        total_ones(values(cells@).take(idx as int)) <= usize::MAX,
    ensures
        r == total_ones(values(cells@).take(idx as int)),
{
    let ghost words = values(cells@);
    let mut r: usize = 0;
    let mut i: usize = 0;
    proof {
        assert(words.take(0) =~= Seq::<u16>::empty());
    }
    while i < idx
        invariant
            i <= idx <= cells@.len(),
            words == values(cells@),
            r == total_ones(words.take(i as int)),
            total_ones(words.take(idx as int)) <= usize::MAX,
        decreases idx - i,
    {
        proof {
            lemma_total_ones_take_step(words, i as int);
            lemma_total_ones_take_mono(words, i + 1, idx as int);
        }
        r = r + cells[i].count_ones();
        i = i + 1;
    }
    r
}

/// A place in one level of the tree: the level's height above the leaves,
/// the offset of a cell within the level, and the bit of the whole tree that
/// is looked for.
pub type LayerIndex = (usize, usize, usize);

/// One level of the tree: its cells, from left to right.
///
/// A layer does not know its own height; whoever addresses it passes the
/// height along. Bits are usually read and written through a
/// [`crate::Tree`], which keeps the levels consistent with each other.
#[derive(Debug, PartialEq)]
pub struct Layer(pub Vec<Cell>);

impl Clone for Layer {
    fn clone(&self) -> (r: Layer)
        ensures
            r@ == self@,
    {
        let cells = self.0.clone();
        assert(values(cells@) =~= values(self.0@));
        Layer(cells)
    }
}

impl View for Layer {
    type V = Seq<u16>;

    open spec fn view(&self) -> Seq<u16> {
        values(self.0@)
    }
}

impl Layer {
    /// A layer of the given cells.
    pub fn from(cells: Vec<Cell>) -> (r: Layer)
        ensures
            r@ == values(cells@),
    {
        Layer(cells)
    }

    /// The number of set bits in the whole layer.
    pub fn count_ones(&self) -> (r: usize)
        requires
            total_ones(self@) <= usize::MAX,
        ensures
            r == total_ones(self@),
    {
        count_ones(self.0.as_slice())
    }

    /// The number of set bits in the whole layer, if it is at most `limit`.
    pub fn count_ones_within(&self, limit: usize) -> (r: Option<usize>)
        ensures
            match r {
                Some(n) => n == total_ones(self@) && n <= limit,
                None => total_ones(self@) > limit,
            },
    {
        let mut r: usize = 0;
        let mut i: usize = 0;
        proof {
            assert(self@.take(0) =~= Seq::<u16>::empty());
        }
        while i < self.0.len()
            invariant
                i <= self@.len(),
                r == total_ones(self@.take(i as int)),
                r <= limit,
            decreases self@.len() - i,
        {
            proof {
                lemma_total_ones_take_step(self@, i as int);
                lemma_total_ones_take_mono(self@, i + 1, self@.len() as int);
            }
            let c = self.0[i].count_ones();
            if c > limit - r {
                return None;
            }
            r = r + c;
            i = i + 1;
        }
        proof {
            assert(self@.take(i as int) =~= self@);
        }
        Some(r)
    }

    /// The number of set bits before bit `offset` of the layer, where the
    /// bits of the layer are numbered through its cells from left to right:
    /// all bits of the cells that lie wholly before `offset`, and the bits
    /// below `offset` in the cell that it falls into.
    pub fn count_ones_until(&self, offset: usize) -> (r: usize)
        requires
            offset <= 16 * self@.len(),
            rank(self@, offset as int / 16, offset as nat % 16) <= usize::MAX,
        ensures
            r == rank(self@, offset as int / 16, offset as nat % 16),
    {
        let whole = offset / Cell::bits();
        let part = offset % Cell::bits();
        let before = count_ones_until(self.0.as_slice(), whole);
        if part == 0 {
            before
        } else {
            before + self.0[whole].count_ones_until(part)
        }
    }

    /// The number of bits of the whole tree that one cell covers on the
    /// level `height` above the leaves.
    pub fn layer_bits(height: usize) -> (r: usize)
        requires
            pow16((height + 1) as nat) <= usize::MAX,
        ensures
            r == pow16((height + 1) as nat),
    {
        proof {
            lemma_pow16_fits((height + 1) as nat);
            lemma_pow16_is_pow2((height + 1) as nat);
            lemma2_to64();
            lemma_pow2_adds(4, (4 * height) as nat);
        }
        let shift = 4 * height;
        proof {
            lemma_usize_shl_is_mul(16, shift);
        }
        Cell::bits() << shift
    }

    /// The slot, within a cell of this level, that covers the bit looked for.
    pub fn cell_bit(&self, li: LayerIndex) -> (r: usize)
        ensures
            r == slot_of(li.0 as nat, li.2 as nat),
            r < 16,
    {
        let (height, _, bit) = li;
        let limit: usize = (usize::BITS / 4) as usize;
        if height >= limit {
            proof {
                lemma_pow16_exceeds(height as nat, bit);
            }
            0
        } else {
            let shift = 4 * height;
            proof {
                lemma_usize_shr_is_div(bit, shift);
                lemma_pow16_is_pow2(height as nat);
            }
            (bit >> shift) % Cell::bits()
        }
    }

    /// The value of the bit looked for, read in the cell at the given
    /// offset, and the offset of that bit's child cell in the level below.
    ///
    /// The child offset is the rank of the bit within this layer. It is
    /// where the child is if the bit is set, and where a child would have to
    /// go if it is not. On the leaf level there is no level below, and the
    /// offset is 0.
    pub fn get(&self, li: LayerIndex) -> (r: (usize, bool))
        requires
            li.1 < self@.len(),
            li.0 > 0 ==> rank(self@, li.1 as int, slot_of(li.0 as nat, li.2 as nat)) <= usize::MAX,
        ensures
            r.1 == bit_of(self@[li.1 as int], slot_of(li.0 as nat, li.2 as nat)),
            r.0 == (if li.0 > 0 {
                rank(self@, li.1 as int, slot_of(li.0 as nat, li.2 as nat))
            } else {
                0
            }),
    {
        let (height, offset, _) = li;
        let cell = self.0[offset];
        let o = self.cell_bit(li);
        let next_offset = if height > 0 {
            count_ones_until(self.0.as_slice(), offset) + cell.count_ones_until(o)
        } else {
            0
        };
        (next_offset, cell.get(o))
    }

    /// Puts `cell` at offset `n`, moving the cells from there on by one.
    pub fn insert_cell(&mut self, n: usize, cell: Cell)
        requires
            n <= old(self)@.len(),
        ensures
            final(self)@ == old(self)@.insert(n as int, cell@),
    {
        self.0.insert(n, cell);
        assert(self@ =~= old(self)@.insert(n as int, cell@));
    }

    /// Sets the bit looked for in the cell at the given offset.
    ///
    /// Returns the offset of the bit's child cell in the level below, as
    /// [`Layer::get`] does, and whether the bit was newly set: `true` says
    /// that the child does not exist yet.
    pub fn set(&mut self, li: LayerIndex) -> (r: (usize, bool))
        requires
            li.1 < old(self)@.len(),
            li.0 > 0 ==> rank(old(self)@, li.1 as int, slot_of(li.0 as nat, li.2 as nat))
                <= usize::MAX,
        ensures
            final(self)@ == old(self)@.update(
                li.1 as int,
                with_bit(old(self)@[li.1 as int], slot_of(li.0 as nat, li.2 as nat), true),
            ),
            r.1 == !bit_of(old(self)@[li.1 as int], slot_of(li.0 as nat, li.2 as nat)),
            r.0 == (if li.0 > 0 {
                rank(old(self)@, li.1 as int, slot_of(li.0 as nat, li.2 as nat))
            } else {
                0
            }),
    {
        let (_, offset, _) = li;
        let (next_offset, set) = self.get(li);
        if set {
            proof {
                crate::cell::lemma_with_bit_same(
                    self@[offset as int],
                    slot_of(li.0 as nat, li.2 as nat),
                );
                assert(self@ =~= old(self)@.update(offset as int, self@[offset as int]));
            }
            return (next_offset, false);
        }
        let o = self.cell_bit(li);
        self.0[offset] = self.0[offset].set(o, true);
        assert(self@ =~= old(self)@.update(
            offset as int,
            with_bit(old(self)@[offset as int], o as nat, true),
        ));
        (next_offset, true)
    }

    /// Clears the bit looked for in the cell at the given offset. Nothing
    /// else changes: no cell is removed, here or on any other level.
    pub fn unset(&mut self, li: LayerIndex)
        requires
            li.1 < old(self)@.len(),
        ensures
            final(self)@ == old(self)@.update(
                li.1 as int,
                with_bit(old(self)@[li.1 as int], slot_of(li.0 as nat, li.2 as nat), false),
            ),
    {
        let (_, offset, _) = li;
        let o = self.cell_bit(li);
        self.0[offset] = self.0[offset].set(o, false);
        assert(self@ =~= old(self)@.update(
            offset as int,
            with_bit(old(self)@[offset as int], o as nat, false),
        ));
    }

    /// The raw words of the layer's cells, in order.
    pub fn to_vec(&self) -> (r: Vec<CellRepr>)
        ensures
            r@ == self@,
    {
        let mut r: Vec<CellRepr> = Vec::new();
        let mut i: usize = 0;
        while i < self.0.len()
            invariant
                i <= self.0@.len(),
                r@ == self@.take(i as int),
            decreases self.0@.len() - i,
        {
            r.push(self.0[i].inner());
            i = i + 1;
            assert(r@ =~= self@.take(i as int));
        }
        assert(self@.take(i as int) =~= self@);
        r
    }
}

} // verus!
