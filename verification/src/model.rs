//! The tree as mathematics: its levels as sequences of raw words, the place
//! of every node within its level, and what setting, clearing and growing do
//! to the levels.
//!
//! A tree of `h` levels addresses the bits below `16^h`. Level 0 is the
//! root. On level `l` the nodes are numbered from the left, a node covering
//! `16^(h - l)` bits, so that node `n` of level `l` has the children
//! `16 * n .. 16 * n + 15` on level `l + 1`, one for each slot of its cell.
//! The bits themselves are the nodes of level `h`. Only nodes whose slot in
//! the parent is set have a cell, and the cells of a level are stored in the
//! order of their nodes.

use crate::cell::{bit_of, with_bit, Cell};
use crate::layer::{
    child_place, lemma_child_off_path, lemma_child_on_path, lemma_rank_bounds,
    lemma_rank_order, lemma_total_ones_take_mono, lemma_with_slot_set_count, rank, shifted,
    slot_of, total_ones, with_slot_set,
};
use crate::power::{
    lemma_pow16_adds, lemma_pow16_child, lemma_pow16_div_step, lemma_pow16_div_zero,
    lemma_pow16_positive, pow16,
};
use vstd::prelude::*;

verus! {

/// The invariant of the levels of a tree: there is a root level of exactly
/// one cell, no level is empty, and every level below the root has one cell
/// for each set bit of the level above it.
pub open spec fn well_formed(layers: Seq<Seq<u16>>) -> bool {
    &&& layers.len() >= 1
    &&& layers[0].len() == 1
    &&& forall|i: int|
        0 < i < layers.len() ==> (#[trigger] layers[i]).len() == total_ones(layers[i - 1])
            && layers[i].len() >= 1
}

/// The node of level `level` that covers bit `bit` in a tree of `height`
/// levels.
pub open spec fn node_of(height: nat, level: nat, bit: nat) -> nat {
    bit / pow16((height - level) as nat)
}

/// Where node `node` of level `level` sits, and whether it is there.
///
/// The second component says whether the node has a cell: the root always
/// has, and a node below it has one when its parent has a cell in which the
/// node's slot is set. The first component is the offset of that cell within
/// its level. For a node without a cell it is the offset at which its cell
/// would have to be inserted to keep the level in order.
///
/// One level below the leaves, at `level == layers.len()`, the nodes are
/// the bits of the tree, and the second component is the bit's value.
pub open spec fn place(layers: Seq<Seq<u16>>, level: nat, node: nat) -> (int, bool)
    decreases level,
{
    if level == 0 {
        (0, node == 0)
    } else {
        child_place(layers[level - 1], place(layers, (level - 1) as nat, node / 16), node % 16)
    }
}

/// The value of bit `bit`: whether the path of slots that leads to it is
/// set on every level. A bit beyond the capacity of the tree is unset.
pub open spec fn bit_at(layers: Seq<Seq<u16>>, bit: nat) -> bool {
    place(layers, layers.len(), bit).1
}

/// Level `level` after bit `bit` has been set: the cell on the path to the
/// bit has the slot of the path set, and is inserted first where the node
/// had no cell.
pub open spec fn set_layer(layers: Seq<Seq<u16>>, level: nat, bit: nat) -> Seq<u16> {
    let height = layers.len();
    let at = place(layers, level, node_of(height, level, bit));
    let slot = slot_of((height - 1 - level) as nat, bit);
    with_slot_set(layers[level as int], at, slot)
}

/// The levels after bit `bit` has been set.
pub open spec fn set_layers(layers: Seq<Seq<u16>>, bit: nat) -> Seq<Seq<u16>> {
    Seq::new(layers.len(), |level: int| set_layer(layers, level as nat, bit))
}

/// The levels after bit `bit` has been cleared: where the leaf cell that
/// covers the bit exists, the bit is cleared in it. No cell leaves the tree.
pub open spec fn unset_layers(layers: Seq<Seq<u16>>, bit: nat) -> Seq<Seq<u16>> {
    let last = (layers.len() - 1) as nat;
    let at = place(layers, last, bit / 16);
    if at.1 {
        layers.update(
            last as int,
            layers[last as int].update(at.0, with_bit(layers[last as int][at.0], bit % 16, false)),
        )
    } else {
        layers
    }
}

/// The levels after the tree has grown by one level: a new root above the
/// old one, with its first slot set.
pub open spec fn grow_layers(layers: Seq<Seq<u16>>) -> Seq<Seq<u16>> {
    seq![seq![1u16]] + layers
}

/// The path to a bit, one level down: the node on the next level is the
/// child, in the slot that covers the bit, of the node on this level.
pub proof fn lemma_path_step(height: nat, level: nat, bit: nat)
    requires
        level < height,
    ensures
        node_of(height, level + 1, bit) / 16 == node_of(height, level, bit),
        node_of(height, level + 1, bit) % 16 == slot_of((height - 1 - level) as nat, bit),
        node_of(height, level + 1, bit) == 16 * node_of(height, level, bit) + slot_of(
            (height - 1 - level) as nat,
            bit,
        ),
{
    lemma_pow16_div_step(bit, (height - 1 - level) as nat);
}

/// The path to a bit starts at the root and ends at the bit.
pub proof fn lemma_path_ends(height: nat, bit: nat)
    requires
        bit < pow16(height),
    ensures
        node_of(height, 0, bit) == 0,
        node_of(height, height, bit) == bit,
{
    lemma_pow16_div_zero(bit, height);
    assert(pow16((height - height) as nat) == 1);
    assert(bit / 1 == bit);
}

/// Where a node sits depends only on the levels above it.
pub proof fn lemma_place_prefix(a: Seq<Seq<u16>>, b: Seq<Seq<u16>>, level: nat, node: nat)
    requires
        forall|i: int| 0 <= i < level ==> a[i] == b[i],
    ensures
        place(a, level, node) == place(b, level, node),
    decreases level,
{
    if level > 0 {
        lemma_place_prefix(a, b, (level - 1) as nat, node / 16);
    }
}

/// A node's offset lies within its level, or just past its end for a node
/// that would be appended.
pub proof fn lemma_place_bounds(layers: Seq<Seq<u16>>, level: nat, node: nat)
    requires
        well_formed(layers),
        level < layers.len(),
    ensures
        0 <= place(layers, level, node).0 <= layers[level as int].len(),
        place(layers, level, node).1 ==> place(layers, level, node).0 < layers[level as int].len(),
    decreases level,
{
    if level > 0 {
        let up = place(layers, (level - 1) as nat, node / 16);
        let cells = layers[level - 1];
        lemma_place_bounds(layers, (level - 1) as nat, node / 16);
        assert(layers[level as int].len() == total_ones(cells));
        if up.1 {
            lemma_rank_bounds(cells, up.0, node % 16);
        } else {
            lemma_total_ones_take_mono(cells, up.0, up.0);
        }
    }
}

/// Only nodes below `16^level` have a cell on level `level`.
pub proof fn lemma_place_range(layers: Seq<Seq<u16>>, level: nat, node: nat)
    requires
        place(layers, level, node).1,
    ensures
        node < pow16(level),
    decreases level,
{
    if level > 0 {
        lemma_place_range(layers, (level - 1) as nat, node / 16);
    }
}

/// Two nodes with a cell at the same offset of the same level are one node.
pub proof fn lemma_place_injective(layers: Seq<Seq<u16>>, level: nat, n1: nat, n2: nat)
    requires
        well_formed(layers),
        level <= layers.len(),
        place(layers, level, n1).1,
        place(layers, level, n2).1,
        place(layers, level, n1).0 == place(layers, level, n2).0,
    ensures
        n1 == n2,
    decreases level,
{
    if level > 0 {
        let up1 = place(layers, (level - 1) as nat, n1 / 16);
        let up2 = place(layers, (level - 1) as nat, n2 / 16);
        let cells = layers[level - 1];
        lemma_place_bounds(layers, (level - 1) as nat, n1 / 16);
        lemma_place_bounds(layers, (level - 1) as nat, n2 / 16);
        if up1.0 < up2.0 || (up1.0 == up2.0 && n1 % 16 < n2 % 16) {
            lemma_rank_order(cells, up1.0, n1 % 16, up2.0, n2 % 16);
        } else if up2.0 < up1.0 || (up1.0 == up2.0 && n2 % 16 < n1 % 16) {
            lemma_rank_order(cells, up2.0, n2 % 16, up1.0, n1 % 16);
        } else {
            lemma_place_injective(layers, (level - 1) as nat, n1 / 16, n2 / 16);
        }
    }
}

/// Below a node without a cell, no node on the path to a bit has a cell,
/// and the bit is unset.
pub proof fn lemma_path_absent(layers: Seq<Seq<u16>>, bit: nat, from: nat, to: nat)
    requires
        from <= to <= layers.len(),
        !place(layers, from, node_of(layers.len(), from, bit)).1,
    ensures
        !place(layers, to, node_of(layers.len(), to, bit)).1,
    decreases to,
{
    if from < to {
        lemma_path_absent(layers, bit, from, (to - 1) as nat);
        lemma_path_step(layers.len(), (to - 1) as nat, bit);
    }
}

/// Growing keeps every node where it is, one level further down.
pub proof fn lemma_grow_place(layers: Seq<Seq<u16>>, level: nat, node: nat)
    requires
        level <= layers.len(),
    ensures
        place(grow_layers(layers), level + 1, node).1 == place(layers, level, node).1,
        place(layers, level, node).1 ==> place(grow_layers(layers), level + 1, node).0 == place(
            layers,
            level,
            node,
        ).0,
    decreases level,
{
    let grown = grow_layers(layers);
    let root = seq![1u16];
    assert(grown[0] == root);
    assert(forall|i: int| 0 <= i < layers.len() ==> grown[i + 1] == layers[i]);
    if level == 0 {
        let up = place(grown, 0, node / 16);
        assert(root.take(0) =~= Seq::<u16>::empty());
        assert(bit_of(1u16, 0)) by (bit_vector);
        if node / 16 == 0 && node != 0 {
            let s = (node % 16) as u16;
            assert((1u16 >> s) & 1u16 != 1u16) by (bit_vector)
                requires
                    0 < s < 16,
            ;
        }
    } else {
        lemma_grow_place(layers, (level - 1) as nat, node / 16);
        let up_new = place(grown, level, node / 16);
        let up_old = place(layers, (level - 1) as nat, node / 16);
        assert(grown[level as int] == layers[level - 1]);
    }
}

/// Where the nodes sit after a bit has been set: the nodes on the path to
/// the bit all have a cell, and every other node is as it was, moved by one
/// within its level where a new cell came before it.
pub proof fn lemma_set_place(layers: Seq<Seq<u16>>, bit: nat, level: nat, node: nat)
    requires
        well_formed(layers),
        bit < pow16(layers.len()),
        level <= layers.len(),
    ensures
        ({
            let path = node_of(layers.len(), level, bit);
            let at = place(layers, level, path);
            let was = place(layers, level, node);
            let now = place(set_layers(layers, bit), level, node);
            &&& now.1 == (was.1 || node == path)
            &&& now.1 ==> now.0 == (if node == path {
                at.0
            } else {
                shifted(was.0, at)
            })
        }),
    decreases level,
{
    let height = layers.len();
    let after = set_layers(layers, bit);
    if level == 0 {
        lemma_path_ends(height, bit);
    } else {
        let lv = (level - 1) as nat;
        let parent = node / 16;
        let s = node % 16;
        let slot = slot_of((height - 1 - lv) as nat, bit);
        let path_up = node_of(height, lv, bit);
        let at_up = place(layers, lv, path_up);
        let was_up = place(layers, lv, parent);
        let now_up = place(after, lv, parent);
        let cells = layers[lv as int];
        lemma_set_place(layers, bit, lv, parent);
        lemma_path_step(height, lv, bit);
        lemma_place_bounds(layers, lv, path_up);
        lemma_place_bounds(layers, lv, parent);
        assert(after[lv as int] == with_slot_set(cells, at_up, slot));
        if now_up.1 {
            if parent == path_up {
                lemma_child_on_path(cells, at_up, slot, s);
            } else {
                if at_up.1 && was_up.0 == at_up.0 {
                    lemma_place_injective(layers, lv, parent, path_up);
                }
                lemma_child_off_path(cells, at_up, slot, was_up.0, s);
            }
        }
    }
}

/// Setting a bit keeps the tree well formed and its height.
pub proof fn lemma_set_well_formed(layers: Seq<Seq<u16>>, bit: nat)
    requires
        well_formed(layers),
        bit < pow16(layers.len()),
    ensures
        well_formed(set_layers(layers, bit)),
        set_layers(layers, bit).len() == layers.len(),
        forall|level: int|
            0 <= level < layers.len() ==> (#[trigger] set_layers(layers, bit)[level]).len()
                >= layers[level].len(),
{
    let height = layers.len();
    let after = set_layers(layers, bit);
    lemma_path_ends(height, bit);
    assert forall|i: int| 0 <= i < height implies (#[trigger] after[i]).len() >= layers[i].len()
        && after[i].len() >= 1 && (i > 0 ==> after[i].len() == total_ones(after[i - 1])) by {
        let at = place(layers, i as nat, node_of(height, i as nat, bit));
        let slot = slot_of((height - 1 - i) as nat, bit);
        lemma_place_bounds(layers, i as nat, node_of(height, i as nat, bit));
        lemma_with_slot_set_count(layers[i], at, slot);
        if i > 0 {
            let up = place(layers, (i - 1) as nat, node_of(height, (i - 1) as nat, bit));
            let slot_up = slot_of((height - i) as nat, bit);
            lemma_place_bounds(layers, (i - 1) as nat, node_of(height, (i - 1) as nat, bit));
            lemma_with_slot_set_count(layers[i - 1], up, slot_up);
            lemma_path_step(height, (i - 1) as nat, bit);
        }
    }
}

/// The bits after a bit has been set: that bit is set, and every other bit
/// has the value it had.
pub proof fn lemma_set_bits(layers: Seq<Seq<u16>>, bit: nat, other: nat)
    requires
        well_formed(layers),
        bit < pow16(layers.len()),
    ensures
        bit_at(set_layers(layers, bit), other) == (other == bit || bit_at(layers, other)),
{
    lemma_set_place(layers, bit, layers.len(), other);
    lemma_path_ends(layers.len(), bit);
}

/// Clearing a bit keeps the tree well formed, its height and the length of
/// every level.
pub proof fn lemma_unset_well_formed(layers: Seq<Seq<u16>>, bit: nat)
    requires
        well_formed(layers),
    ensures
        well_formed(unset_layers(layers, bit)),
        unset_layers(layers, bit).len() == layers.len(),
        forall|level: int|
            0 <= level < layers.len() ==> (#[trigger] unset_layers(layers, bit)[level]).len()
                == layers[level].len(),
{
    let after = unset_layers(layers, bit);
    let last = (layers.len() - 1) as nat;
    lemma_place_bounds(layers, last, bit / 16);
    assert forall|i: int| 0 < i < after.len() implies (#[trigger] after[i]).len() == total_ones(
        after[i - 1],
    ) && after[i].len() >= 1 by {
        assert(layers[i].len() == total_ones(layers[i - 1]));
    }
}

/// The bits after a bit has been cleared: that bit is unset, and every
/// other bit has the value it had.
pub proof fn lemma_unset_bits(layers: Seq<Seq<u16>>, bit: nat, other: nat)
    requires
        well_formed(layers),
    ensures
        bit_at(unset_layers(layers, bit), other) == (other != bit && bit_at(layers, other)),
{
    let after = unset_layers(layers, bit);
    let last = (layers.len() - 1) as nat;
    let at = place(layers, last, bit / 16);
    let up = place(layers, last, other / 16);
    lemma_place_prefix(layers, after, last, other / 16);
    lemma_place_bounds(layers, last, bit / 16);
    lemma_place_bounds(layers, last, other / 16);
    if at.1 && up.1 {
        if up.0 == at.0 {
            lemma_place_injective(layers, last, other / 16, bit / 16);
        }
        crate::cell::lemma_with_bit(layers[last as int][at.0], bit % 16, false, other % 16);
    }
}

/// The order of the nodes is the order of their cells: of two nodes with
/// a cell on one level, the one with the lower number sits further left.
pub proof fn lemma_place_monotone(layers: Seq<Seq<u16>>, level: nat, n1: nat, n2: nat)
    requires
        well_formed(layers),
        level <= layers.len(),
        place(layers, level, n1).1,
        place(layers, level, n2).1,
        n1 < n2,
    ensures
        place(layers, level, n1).0 < place(layers, level, n2).0,
    decreases level,
{
    if level > 0 {
        let up1 = place(layers, (level - 1) as nat, n1 / 16);
        let up2 = place(layers, (level - 1) as nat, n2 / 16);
        let cells = layers[level - 1];
        lemma_place_bounds(layers, (level - 1) as nat, n1 / 16);
        lemma_place_bounds(layers, (level - 1) as nat, n2 / 16);
        if n1 / 16 < n2 / 16 {
            lemma_place_monotone(layers, (level - 1) as nat, n1 / 16, n2 / 16);
        }
        lemma_rank_order(cells, up1.0, n1 % 16, up2.0, n2 % 16);
    }
}

/// Whether `start` is the first bit that the cell at offset `k` of level
/// `level` covers.
pub open spec fn starts_at(layers: Seq<Seq<u16>>, level: nat, k: int, start: nat) -> bool {
    let span = pow16((layers.len() - level) as nat);
    start % span == 0 && place(layers, level, start / span) == (k, true)
}

/// Whether `leaves` pairs every leaf cell, in order, with the first bit that
/// it covers.
pub open spec fn is_leaf_map(layers: Seq<Seq<u16>>, leaves: Seq<(usize, Cell)>) -> bool {
    let last = (layers.len() - 1) as nat;
    &&& leaves.len() == layers[last as int].len()
    &&& forall|k: int|
        0 <= k < leaves.len() ==> (#[trigger] leaves[k]).1@ == layers[last as int][k] && starts_at(
            layers,
            last,
            k,
            leaves[k].0 as nat,
        )
}

/// The root starts at bit 0.
pub proof fn lemma_root_start(layers: Seq<Seq<u16>>)
    requires
        well_formed(layers),
    ensures
        starts_at(layers, 0, 0, 0),
{
    lemma_pow16_positive(layers.len());
    lemma_pow16_div_zero(0, layers.len());
}

/// From where a cell starts to where its children start: the child in slot
/// `idx` starts `idx` times the span of a child further on, and sits at the
/// rank of its slot. The cell ends within the capacity of the tree.
pub proof fn lemma_child_start(layers: Seq<Seq<u16>>, level: nat, k: int, start: nat, idx: nat)
    requires
        well_formed(layers),
        level + 1 < layers.len(),
        starts_at(layers, level, k, start),
        idx < 16,
    ensures
        start + 16 * pow16((layers.len() - level - 1) as nat) <= pow16(layers.len()),
        bit_of(layers[level as int][k], idx) ==> starts_at(
            layers,
            level + 1,
            rank(layers[level as int], k, idx) as int,
            start + idx * pow16((layers.len() - level - 1) as nat),
        ),
{
    let height = layers.len();
    let n = (height - level - 1) as nat;
    let sub = pow16(n);
    let span = pow16(n + 1);
    let node = start / span;
    lemma_pow16_positive(n + 1);
    lemma_pow16_child(start, n, idx);
    lemma_place_range(layers, level, node);
    lemma_pow16_adds(level, n + 1);
    vstd::arithmetic::div_mod::lemma_fundamental_div_mod(start as int, span as int);
    assert(start + span <= pow16(level) * span) by (nonlinear_arith)
        requires
            start == span * node,
            node + 1 <= pow16(level),
            span > 0,
    ;
    let child = 16 * node + idx;
    assert(child / 16 == node && child % 16 == idx);
}

} // verus!
