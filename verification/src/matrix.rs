//! A square bit matrix laid over a tree: rows and columns in place of bit
//! offsets.

use crate::model::{grow_layers, set_layers, unset_layers};
use crate::tree::Tree;
use vstd::arithmetic::power2::{lemma2_to64, lemma_pow2_strictly_increases, pow2};
use vstd::bits::lemma_usize_shl_is_mul;
use vstd::prelude::*;

verus! {

/// A square matrix of bits, stored row by row in a [`Tree`].
///
/// The bit in column `x` of row `y` is the bit of the tree at offset
/// `side * y + x`, where `side` is the number of rows, which is also the
/// number of columns.
#[derive(Debug, PartialEq)]
pub struct Matrix(Tree);

impl Clone for Matrix {
    fn clone(&self) -> (r: Matrix)
        ensures
            r.tree()@ == self.tree()@,
    {
        Matrix(self.0.clone())
    }
}

impl Matrix {
    /// The tree that holds the bits.
    pub closed spec fn tree(&self) -> Tree {
        self.0
    }

    /// The number of rows, and of columns: `4^height`, the square root of
    /// the number of bits.
    pub open spec fn spec_side(&self) -> nat {
        pow2(2 * self.tree().spec_height())
    }

    /// The offset in the tree of the bit in column `x` of row `y`.
    pub open spec fn spec_offset(&self, x: nat, y: nat) -> nat {
        self.spec_side() * y + x
    }

    /// A matrix over a new tree: 4 rows of 4 columns, no bit set.
    pub fn new() -> (r: Matrix)
        ensures
            r.tree().wf(),
            r.tree()@ == seq![seq![0u16]],
    {
        Matrix(Tree::new())
    }

    /// A matrix over the given tree.
    pub fn from(tree: Tree) -> (r: Matrix)
        ensures
            r.tree() == tree,
    {
        Matrix(tree)
    }

    /// The tree that holds the bits.
    pub fn into_inner(self) -> (r: Tree)
        ensures
            r == self.tree(),
    {
        self.0
    }

    /// The number of bits that the matrix holds.
    pub fn bits(&self) -> (r: usize)
        requires
            self.tree().wf(),
            self.tree().spec_bits() <= usize::MAX,
        ensures
            r == self.tree().spec_bits(),
    {
        self.0.bits()
    }

    /// The number of rows, and of columns.
    pub fn side(&self) -> (r: usize)
        requires
            self.spec_side() <= usize::MAX,
        ensures
            r == self.spec_side(),
    {
        let height = self.0.height();
        proof {
            lemma2_to64();
            if 2 * height >= usize::BITS {
                if 2 * height > usize::BITS {
                    lemma_pow2_strictly_increases(usize::BITS as nat, (2 * height) as nat);
                }
            }
        }
        let shift = (4 * height) / 2;
        proof {
            lemma_usize_shl_is_mul(1, shift);
        }
        1 << shift
    }

    /// The offset in the tree of the bit in column `x` of row `y`.
    fn offset(&self, x: usize, y: usize) -> (r: usize)
        requires
            self.spec_side() <= usize::MAX,
            self.spec_offset(x as nat, y as nat) <= usize::MAX,
        ensures
            r == self.spec_offset(x as nat, y as nat),
    {
        (self.side() * y) + x
    }

    /// Whether the bit in column `x` of row `y` is set.
    pub fn get(&mut self, x: usize, y: usize) -> (r: bool)
        requires
            old(self).tree().wf(),
            old(self).spec_side() <= usize::MAX,
            old(self).spec_offset(x as nat, y as nat) < old(self).tree().spec_bits(),
            old(self).spec_offset(x as nat, y as nat) <= usize::MAX,
        ensures
            final(self).tree() == old(self).tree(),
            r == old(self).tree().spec_get(old(self).spec_offset(x as nat, y as nat)),
    {
        self.0.get(self.offset(x, y))
    }

    /// Sets the bit in column `x` of row `y`.
    pub fn set(&mut self, x: usize, y: usize)
        requires
            old(self).tree().wf(),
            old(self).spec_side() <= usize::MAX,
            old(self).spec_offset(x as nat, y as nat) < old(self).tree().spec_bits(),
            old(self).spec_offset(x as nat, y as nat) <= usize::MAX,
        ensures
            final(self).tree().wf(),
            final(self).tree()@ == set_layers(
                old(self).tree()@,
                old(self).spec_offset(x as nat, y as nat),
            ),
            forall|other: nat|
                final(self).tree().spec_get(other) == (other == old(self).spec_offset(
                    x as nat,
                    y as nat,
                ) || old(self).tree().spec_get(other)),
    {
        let offset = self.offset(x, y);
        self.0.set(offset);
    }

    /// Clears the bit in column `x` of row `y`.
    pub fn unset(&mut self, x: usize, y: usize)
        requires
            old(self).tree().wf(),
            old(self).spec_side() <= usize::MAX,
            old(self).spec_offset(x as nat, y as nat) < old(self).tree().spec_bits(),
            old(self).spec_offset(x as nat, y as nat) <= usize::MAX,
        ensures
            final(self).tree().wf(),
            final(self).tree()@ == unset_layers(
                old(self).tree()@,
                old(self).spec_offset(x as nat, y as nat),
            ),
            forall|other: nat|
                final(self).tree().spec_get(other) == (other != old(self).spec_offset(
                    x as nat,
                    y as nat,
                ) && old(self).tree().spec_get(other)),
    {
        let offset = self.offset(x, y);
        self.0.unset(offset);
    }

    /// Adds a level to the tree: 16 times the bits, 4 times the rows and
    /// the columns. The bits keep their offsets in the tree, so they move
    /// to other rows and columns.
    pub fn grow(&mut self)
        requires
            old(self).tree().wf(),
        ensures
            final(self).tree().wf(),
            final(self).tree()@ == grow_layers(old(self).tree()@),
            final(self).tree().spec_bits() == 16 * old(self).tree().spec_bits(),
            final(self).spec_side() == 4 * old(self).spec_side(),
            forall|bit: nat| final(self).tree().spec_get(bit) == old(self).tree().spec_get(bit),
    {
        self.0.grow();
        proof {
            lemma2_to64();
            vstd::arithmetic::power2::lemma_pow2_adds(2, 2 * old(self).tree().spec_height());
        }
    }
}

} // verus!
