//! The 16-bit cell: the unit of storage on every level of the tree.

use vstd::prelude::*;

verus! {

/// The integer that backs a [`Cell`].
pub type CellRepr = u16;

/// Whether bit `i` of `v` is set. No bit exists at or above 16.
pub open spec fn bit_of(v: u16, i: nat) -> bool {
    i < 16 && (v >> (i as u16)) & 1u16 == 1u16
}

/// `v` with bit `i` forced to `b` and every other bit kept.
pub open spec fn with_bit(v: u16, i: nat, b: bool) -> u16 {
    if b {
        v | (1u16 << (i as u16))
    } else {
        v & !(1u16 << (i as u16))
    }
}

/// The number of set bits of `v` strictly below position `n`.
pub open spec fn ones_below(v: u16, n: nat) -> nat
    decreases n,
{
    if n == 0 {
        0
    } else {
        ones_below(v, (n - 1) as nat) + if bit_of(v, (n - 1) as nat) {
            1nat
        } else {
            0nat
        }
    }
}

/// The number of set bits of `v`.
pub open spec fn ones(v: u16) -> nat {
    ones_below(v, 16)
}

/// `u16::count_ones` of the standard library, which returns the number of
/// ones in the binary representation of its argument. The contract states
/// that number as [`ones`]: the count of positions below 16 whose bit is set.
pub assume_specification[ u16::count_ones ](v: u16) -> (r: u32)
    ensures
        r == ones(v),
;

/// Reading a bit back after [`with_bit`]: the forced position holds `b`, the
/// others hold what they held.
pub proof fn lemma_with_bit(v: u16, i: nat, b: bool, j: nat)
    requires
        i < 16,
    ensures
        bit_of(with_bit(v, i, b), j) == (if j == i {
            b
        } else {
            bit_of(v, j)
        }),
{
    if j < 16 {
        let iw = i as u16;
        let jw = j as u16;
        assert(((v | (1u16 << iw)) >> jw) & 1u16 == (if jw == iw {
            1u16
        } else {
            (v >> jw) & 1u16
        })) by (bit_vector)
            requires
                iw < 16,
                jw < 16,
        ;
        assert(((v & !(1u16 << iw)) >> jw) & 1u16 == (if jw == iw {
            0u16
        } else {
            (v >> jw) & 1u16
        })) by (bit_vector)
            requires
                iw < 16,
                jw < 16,
        ;
    }
}

/// Forcing a bit to the value it already has changes nothing.
pub proof fn lemma_with_bit_same(v: u16, i: nat)
    requires
        i < 16,
    ensures
        with_bit(v, i, bit_of(v, i)) == v,
{
    let iw = i as u16;
    assert((v >> iw) & 1u16 == 1u16 ==> v | (1u16 << iw) == v) by (bit_vector)
        requires
            iw < 16,
    ;
    assert((v >> iw) & 1u16 != 1u16 ==> v & !(1u16 << iw) == v) by (bit_vector)
        requires
            iw < 16,
    ;
}

/// The all-zero word has no bit set.
pub proof fn lemma_zero_bits(j: nat)
    ensures
        !bit_of(0u16, j),
{
    if j < 16 {
        let jw = j as u16;
        assert((0u16 >> jw) & 1u16 == 0u16) by (bit_vector);
    }
}

/// Words that agree on every bit below `n` have the same count below `n`.
pub proof fn lemma_ones_below_agree(a: u16, b: u16, n: nat)
    requires
        forall|j: nat| j < n ==> bit_of(a, j) == bit_of(b, j),
    ensures
        ones_below(a, n) == ones_below(b, n),
    decreases n,
{
    if n > 0 {
        lemma_ones_below_agree(a, b, (n - 1) as nat);
    }
}

/// The count below a position grows with the position, by at most one per
/// step, and by at least one across a set bit.
pub proof fn lemma_ones_below_mono(v: u16, a: nat, b: nat)
    requires
        a <= b,
    ensures
        ones_below(v, a) <= ones_below(v, b),
        ones_below(v, b) <= ones_below(v, a) + (b - a),
        a < b && bit_of(v, a) ==> ones_below(v, a) < ones_below(v, b),
    decreases b,
{
    if a < b {
        lemma_ones_below_mono(v, a, (b - 1) as nat);
    }
}

/// The all-zero word counts zero below every position.
pub proof fn lemma_ones_below_zero(n: nat)
    ensures
        ones_below(0u16, n) == 0,
    decreases n,
{
    if n > 0 {
        lemma_zero_bits((n - 1) as nat);
        lemma_ones_below_zero((n - 1) as nat);
    }
}

/// Forcing bit `i` changes the count below `n` by one exactly when `i` lies
/// below `n` and the bit changes.
pub proof fn lemma_ones_below_with_bit(v: u16, i: nat, b: bool, n: nat)
    requires
        i < 16,
    ensures
        ones_below(with_bit(v, i, b), n) + (if i < n && bit_of(v, i) {
            1nat
        } else {
            0nat
        }) == ones_below(v, n) + (if i < n && b {
            1nat
        } else {
            0nat
        }),
    decreases n,
{
    if n > 0 {
        lemma_ones_below_with_bit(v, i, b, (n - 1) as nat);
        lemma_with_bit(v, i, b, (n - 1) as nat);
    }
}

/// Masking a word to its lowest `n` bits leaves, as its total count, the
/// count of the word below `n`.
pub proof fn lemma_ones_masked(v: u16, n: nat)
    requires
        n < 16,
    ensures
        ones(v & (((1u16 << (n as u16)) - 1) as u16)) == ones_below(v, n),
{
    let nw = n as u16;
    let m = v & (((1u16 << nw) - 1) as u16);
    assert forall|j: nat| j < 16 implies bit_of(m, j) == (j < n && bit_of(v, j)) by {
        let jw = j as u16;
        assert(((v & (((1u16 << nw) - 1) as u16)) >> jw) & 1u16 == (if jw < nw {
            (v >> jw) & 1u16
        } else {
            0u16
        })) by (bit_vector)
            requires
                nw < 16,
                jw < 16,
        ;
    }
    lemma_ones_below_agree(m, v, n);
    lemma_ones_masked_rest(m, n, 16);
}

/// A word with no bit set from `n` up counts nothing more above `n`.
proof fn lemma_ones_masked_rest(m: u16, n: nat, k: nat)
    requires
        n <= k,
        forall|j: nat| n <= j < k ==> !bit_of(m, j),
    ensures
        ones_below(m, k) == ones_below(m, n),
    decreases k,
{
    if n < k {
        lemma_ones_masked_rest(m, n, (k - 1) as nat);
    }
}

/// A fixed-width word of 16 bits, addressed by bit index.
///
/// A cell is a plain value: setting a bit gives a new cell and leaves the
/// old one as it was.
#[derive(Debug, Clone, Copy, PartialEq, Eq)]
pub struct Cell(CellRepr);

impl View for Cell {
    type V = u16;

    closed spec fn view(&self) -> u16 {
        self.0
    }
}

impl Default for Cell {
    fn default() -> (r: Cell)
        ensures
            r@ == 0,
    {
        Cell(0)
    }
}

impl From<CellRepr> for Cell {
    fn from(n: CellRepr) -> (r: Cell)
        ensures
            r@ == n,
    {
        Cell(n)
    }
}

impl vstd::std_specs::convert::FromSpecImpl<CellRepr> for Cell {
    open spec fn obeys_from_spec() -> bool {
        true
    }

    closed spec fn from_spec(n: CellRepr) -> Cell {
        Cell(n)
    }
}

impl From<Cell> for CellRepr {
    fn from(c: Cell) -> (r: CellRepr)
        ensures
            r == c@,
    {
        c.0
    }
}

impl vstd::std_specs::convert::FromSpecImpl<Cell> for CellRepr {
    open spec fn obeys_from_spec() -> bool {
        true
    }

    open spec fn from_spec(c: Cell) -> CellRepr {
        c@
    }
}

impl Cell {
    /// A cell with no bit set.
    pub fn new() -> (r: Cell)
        ensures
            r@ == 0,
    {
        Cell(0)
    }

    /// The number of bits that a cell holds.
    pub fn bits() -> (r: usize)
        ensures
            r == 16,
    {
        16
    }

    /// Whether bit `n` is set.
    pub fn get(&self, n: usize) -> (r: bool)
        requires
            n < 16,
        ensures
            r == bit_of(self@, n as nat),
    {
        if self.0 == 0 {
            proof {
                lemma_zero_bits(n as nat);
            }
            return false;
        }
        let v = self.0;
        let nw = n as u16;
        assert(((v & (1u16 << nw)) != 0) == ((v >> nw) & 1u16 == 1u16)) by (bit_vector)
            requires
                nw < 16,
        ;
        (v & (1u16 << nw)) != 0
    }

    /// The cell with bit `n` forced to `v` and all other bits kept.
    pub fn set(&self, n: usize, v: bool) -> (r: Cell)
        requires
            n < 16,
        ensures
            r@ == with_bit(self@, n as nat, v),
    {
        let nw = n as u16;
        if v {
            Cell(self.0 | (1u16 << nw))
        } else {
            Cell(self.0 & !(1u16 << nw))
        }
    }

    /// The raw word.
    pub fn inner(&self) -> (r: CellRepr)
        ensures
            r == self@,
    {
        self.0
    }

    /// The number of set bits.
    pub fn count_ones(&self) -> (r: usize)
        ensures
            r == ones(self@),
    {
        proof {
            lemma_ones_below_mono(self.0, 0, 16);
        }
        self.0.count_ones() as usize
    }

    /// The number of set bits strictly below position `idx`.
    pub fn count_ones_until(&self, idx: usize) -> (r: usize)
        requires
            idx < 16,
        ensures
            r == ones_below(self@, idx as nat),
    {
        let nw = idx as u16;
        assert((1u16 << nw) >= 1) by (bit_vector)
            requires
                nw < 16,
        ;
        let mask: u16 = (1u16 << nw) - 1;
        proof {
            lemma_ones_masked(self.0, idx as nat);
            lemma_ones_below_mono(self.0, 0, idx as nat);
        }
        (self.0 & mask).count_ones() as usize
    }
}

} // verus!
