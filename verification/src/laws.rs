//! What holds of every tree: how the operations go together.

use crate::cell::{lemma_with_bit, lemma_with_bit_same, with_bit};
use crate::encoding::{decode, lemma_decode_flatten};
use crate::layer::slot_of;
use crate::model::{
    bit_at, grow_layers, lemma_place_bounds, lemma_place_range, lemma_set_bits, lemma_set_place,
    lemma_set_well_formed, lemma_unset_bits, lemma_unset_well_formed, node_of, place, set_layer,
    set_layers, unset_layers,
};
use crate::power::pow16;
use crate::tree::Tree;
use crate::tree_iterator::lemma_set_indices;
use vstd::prelude::*;

verus! {

/// Writing a tree out and reading it back gives the same tree: the same
/// levels, cell for cell, and so the same value for every bit.
pub proof fn lemma_round_trip(tree: Tree)
    requires
        tree.wf(),
    ensures
        decode(tree@.flatten()) == Some(tree@),
{
    lemma_decode_flatten(tree@);
}

/// Setting a bit twice is setting it once: the second time changes nothing,
/// not even a cell.
pub proof fn lemma_set_idempotent(tree: Tree, bit: nat)
    requires
        tree.wf(),
        bit < tree.spec_bits(),
    ensures
        set_layers(set_layers(tree@, bit), bit) == set_layers(tree@, bit),
{
    let before = tree@;
    let once = set_layers(before, bit);
    let twice = set_layers(once, bit);
    let height = before.len();
    assert forall|level: int| 0 <= level < height implies #[trigger] twice[level]
        == once[level] by {
        let path = node_of(height, level as nat, bit);
        let slot = slot_of((height - 1 - level) as nat, bit);
        let at = place(before, level as nat, path);
        lemma_set_place(before, bit, level as nat, path);
        lemma_place_bounds(before, level as nat, path);
        let word = if at.1 {
            before[level][at.0]
        } else {
            0u16
        };
        assert(once[level] == set_layer(before, level as nat, bit));
        assert(twice[level] == set_layer(once, level as nat, bit));
        assert(once[level][at.0] == with_bit(word, slot, true));
        lemma_with_bit(word, slot, true, slot);
        lemma_with_bit_same(with_bit(word, slot, true), slot);
        assert(twice[level] =~= once[level]);
    }
    assert(twice =~= once);
}

/// Setting a bit that was unset and clearing it again gives every bit the
/// value that it had at first. In between, the bit is set.
pub proof fn lemma_set_then_unset(tree: Tree, bit: nat)
    requires
        tree.wf(),
        bit < tree.spec_bits(),
        !tree.spec_get(bit),
    ensures
        bit_at(set_layers(tree@, bit), bit),
        !bit_at(unset_layers(set_layers(tree@, bit), bit), bit),
        forall|other: nat|
            bit_at(unset_layers(set_layers(tree@, bit), bit), other) == tree.spec_get(other),
{
    let once = set_layers(tree@, bit);
    lemma_set_well_formed(tree@, bit);
    lemma_set_bits(tree@, bit, bit);
    assert forall|other: nat| bit_at(unset_layers(once, bit), other) == tree.spec_get(other) by {
        lemma_set_bits(tree@, bit, other);
        lemma_unset_bits(once, bit, other);
    }
}

/// Clearing a bit removes no cell, and setting one only adds cells: after
/// a bit has been set and cleared again, no level is shorter than it was
/// before.
pub proof fn lemma_unset_keeps_cells(tree: Tree, bit: nat)
    requires
        tree.wf(),
        bit < tree.spec_bits(),
    ensures
        unset_layers(set_layers(tree@, bit), bit).len() == tree@.len(),
        forall|level: int|
            0 <= level < tree@.len() ==> (#[trigger] unset_layers(
                set_layers(tree@, bit),
                bit,
            )[level]).len() == set_layers(tree@, bit)[level].len() && set_layers(
                tree@,
                bit,
            )[level].len() >= tree@[level].len(),
{
    let once = set_layers(tree@, bit);
    lemma_set_well_formed(tree@, bit);
    lemma_unset_well_formed(once, bit);
}

/// Every bit at or beyond the capacity of a tree is unset.
pub proof fn lemma_beyond_capacity(tree: Tree, bit: nat)
    requires
        bit >= tree.spec_bits(),
    ensures
        !tree.spec_get(bit),
{
    if tree.spec_get(bit) {
        lemma_place_range(tree@, tree@.len(), bit);
    }
}

/// A new level multiplies the capacity by 16.
pub proof fn lemma_growth(tree: Tree)
    ensures
        grow_layers(tree@).len() == tree@.len() + 1,
        pow16(grow_layers(tree@).len()) == 16 * pow16(tree@.len()),
{
}

/// Walking all bits gives, at every index, the value that reading the bit
/// gives.
pub proof fn lemma_iter_matches_get(tree: Tree, bit: nat)
    requires
        bit < tree.spec_bits(),
    ensures
        tree.spec_bools(0, tree.spec_bits()).len() == tree.spec_bits(),
        tree.spec_bools(0, tree.spec_bits())[bit as int] == tree.spec_get(bit),
{
}

/// Walking the set bits gives exactly the indices of the bits that read as
/// set, each once, in strictly rising order.
pub proof fn lemma_iter_ones_exact(tree: Tree)
    requires
        tree.spec_bits() <= usize::MAX,
    ensures
        forall|j: int, k: int|
            0 <= j < k < tree.spec_ones(0, tree.spec_bits()).len() ==> tree.spec_ones(
                0,
                tree.spec_bits(),
            )[j] < tree.spec_ones(0, tree.spec_bits())[k],
        forall|i: usize|
            tree.spec_ones(0, tree.spec_bits()).contains(i) <==> i < tree.spec_bits()
                && tree.spec_get(i as nat),
{
    let bits = tree.spec_bits();
    let bit = |i: nat| tree.spec_get(i);
    let ones = tree.spec_ones(0, bits);
    lemma_set_indices(bit, 0, bits);
    assert forall|i: usize| ones.contains(i) <==> i < bits && tree.spec_get(i as nat) by {
        if ones.contains(i) {
            let j = choose|j: int| 0 <= j < ones.len() && ones[j] == i;
            assert(bit(ones[j] as nat));
        }
        if i < bits && tree.spec_get(i as nat) {
            assert(bit(i as nat));
        }
    }
}

} // verus!
