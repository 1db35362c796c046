//! The tree: a bit vector of `16^height` bits, stored level by level.

use crate::cell::{
    lemma_ones_below_with_bit, lemma_ones_below_zero, lemma_zero_bits, with_bit, Cell, CellRepr,
};
use crate::encoding::{decode, decode_from};
use crate::layer::{
    child_place, is_place, lemma_rank_bounds, lemma_set_in_steps, lemma_total_ones_single,
    lemma_total_ones_take_step, rank, slot_of, total_ones, values, with_slot_set, Layer,
    LayerIndex,
};
use crate::model::{
    bit_at, grow_layers, is_leaf_map, lemma_child_start, lemma_grow_place, lemma_path_absent,
    lemma_path_ends, lemma_path_step, lemma_place_bounds, lemma_root_start, lemma_set_bits,
    lemma_set_well_formed, lemma_unset_bits, lemma_unset_well_formed, node_of, place, set_layer,
    set_layers, starts_at, unset_layers, well_formed,
};
use crate::power::{lemma_pow16_increases, pow16};
use vstd::prelude::*;

verus! {

/// A sparse vector of bits, addressed by bit offset.
///
/// A tree holds a fixed number of bits, 16 for a new tree and 16 times more
/// with every [`Tree::grow`]. Bits are read with [`Tree::get`] and written
/// with [`Tree::set`] and [`Tree::unset`].
#[derive(Debug, PartialEq)]
pub struct Tree(Vec<Layer>);

impl Clone for Tree {
    fn clone(&self) -> (r: Tree)
        ensures
            r@ == self@,
    {
        let layers = self.0.clone();
        assert(layers_of(layers@) =~= layers_of(self.0@));
        Tree(layers)
    }
}

/// Why a sequence of raw words is not a tree.
#[derive(Debug, Copy, Clone, PartialEq, Eq)]
pub enum Error {
    /// The words do not make up the levels that they describe: cells of a
    /// level are missing, or words are left over.
    Malformed,
    /// There are no words at all.
    Empty,
}

/// The raw words of a run of layers.
pub open spec fn layers_of(layers: Seq<Layer>) -> Seq<Seq<u16>> {
    layers.map_values(|l: Layer| l@)
}

impl View for Tree {
    type V = Seq<Seq<u16>>;

    /// The levels of the tree, the root first, each as the raw words of its
    /// cells.
    closed spec fn view(&self) -> Seq<Seq<u16>> {
        layers_of(self.0@)
    }
}

impl Default for Tree {
    fn default() -> (r: Tree)
        ensures
            r.wf(),
            r@ == seq![seq![0u16]],
            r.spec_bits() == 16,
            forall|bit: nat| !r.spec_get(bit),
    {
        Tree::new()
    }
}

impl Tree {
    /// The invariant of a tree. Every function that makes or changes a tree
    /// establishes it.
    pub open spec fn wf(&self) -> bool {
        well_formed(self@)
    }

    /// The number of levels.
    pub open spec fn spec_height(&self) -> nat {
        self@.len()
    }

    /// The number of bits that the tree addresses.
    pub open spec fn spec_bits(&self) -> nat {
        pow16(self@.len())
    }

    /// The value of bit `bit`.
    pub open spec fn spec_get(&self, bit: nat) -> bool {
        bit_at(self@, bit)
    }

    /// Every level has a length that a `usize` holds, and so has the count
    /// of set bits of every level but the last.
    proof fn lemma_layer_fits(&self, i: int)
        requires
            self.wf(),
            0 <= i < self@.len(),
        ensures
            self@[i].len() <= usize::MAX,
            i > 0 ==> total_ones(self@[i - 1]) <= usize::MAX,
    {
        assert(self@[i].len() == self.0@[i].0.len());
    }

    /// A tree of the smallest capacity, 16 bits, with no bit set.
    pub fn new() -> (r: Tree)
        ensures
            r.wf(),
            r@ == seq![seq![0u16]],
            r.spec_bits() == 16,
            forall|bit: nat| !r.spec_get(bit),
    {
        let r = Tree(vec![Layer(vec![Cell::from(0)])]);
        proof {
            assert(r@ =~~= seq![seq![0u16]]);
            assert(pow16(1) == 16) by {
                assert(pow16(0) == 1);
            }
            assert forall|bit: nat| !r.spec_get(bit) by {
                lemma_zero_bits(bit % 16);
                assert(r@[0][0] == 0u16);
                assert(place(r@, 0, bit / 16).1 ==> place(r@, 0, bit / 16).0 == 0);
            }
        }
        r
    }

    /// The tree that the words `v` describe.
    ///
    /// The words are the raw cells of the tree, level by level from the
    /// root down, as [`Tree::to_vec`] writes them. The first word is the
    /// root; every further level has as many cells as the level before it
    /// has set bits.
    ///
    /// Fails with [`Error::Empty`] where there is no word, and with
    /// [`Error::Malformed`] where a level with no set bit is followed by
    /// more words, or where fewer words are left than the next level needs.
    pub fn from(v: &[CellRepr]) -> (r: Result<Tree, Error>)
        ensures
            match r {
                Ok(tree) => tree.wf() && decode(v@) == Some(tree@) && tree@.flatten() == v@,
                Err(Error::Empty) => v@.len() == 0,
                Err(Error::Malformed) => v@.len() > 0 && decode(v@) is None,
            },
    {
        if v.len() == 0 {
            return Err(Error::Empty);
        }
        let mut tree: Vec<Layer> = vec![Layer::from(vec![Cell::from(v[0])])];
        let mut pos: usize = 1;
        proof {
            assert(layers_of(tree@) =~~= seq![seq![v@[0]]]);
            layers_of(tree@).lemma_flatten_one_element();
            assert(layers_of(tree@).flatten() =~= v@.take(1));
        }
        while pos < v.len()
            invariant
                1 <= pos <= v@.len(),
                well_formed(layers_of(tree@)),
                layers_of(tree@).flatten() == v@.take(pos as int),
                decode_from(layers_of(tree@), v@.skip(pos as int)) == decode(v@),
            decreases v@.len() - pos,
        {
            let ghost layers = layers_of(tree@);
            let ghost rest = v@.skip(pos as int);
            let remaining = v.len() - pos;
            let layer_len = match tree[tree.len() - 1].count_ones_within(remaining) {
                Some(n) => n,
                None => {
                    return Err(Error::Malformed);
                },
            };
            if layer_len == 0 {
                return Err(Error::Malformed);
            }
            let mut cells: Vec<Cell> = Vec::new();
            let mut k: usize = 0;
            while k < layer_len
                invariant
                    k <= layer_len,
                    pos + layer_len <= v@.len(),
                    v@.len() <= usize::MAX,
                    values(cells@) == v@.subrange(pos as int, pos + k),
                decreases layer_len - k,
            {
                let ghost read = values(cells@);
                let cell = Cell::from(v[pos + k]);
                cells.push(cell);
                k = k + 1;
                assert(values(cells@) =~= read.push(cell@));
            }
            tree.push(Layer::from(cells));
            proof {
                let next = layers.push(rest.take(layer_len as int));
                assert(rest.take(layer_len as int) =~= v@.subrange(
                    pos as int,
                    pos + layer_len,
                ));
                assert(layers_of(tree@) =~= next);
                assert(rest.skip(layer_len as int) =~= v@.skip(pos + layer_len));
                layers.lemma_flatten_push(rest.take(layer_len as int));
                assert(v@.take(pos as int) + rest.take(layer_len as int) =~= v@.take(
                    pos + layer_len,
                ));
                assert forall|i: int| 0 < i < next.len() implies (#[trigger] next[i]).len()
                    == total_ones(next[i - 1]) && next[i].len() >= 1 by {
                    if i < layers.len() {
                        assert(next[i] == layers[i]);
                    }
                }
            }
            pos = pos + layer_len;
        }
        Ok(Tree(tree))
    }

    /// The number of bits that the tree addresses: `16^height`.
    pub fn bits(&self) -> (r: usize)
        requires
            self.wf(),
            self.spec_bits() <= usize::MAX,
        ensures
            r == self.spec_bits(),
    {
        Layer::layer_bits(self.0.len() - 1)
    }

    /// The number of levels.
    pub fn height(&self) -> (r: usize)
        ensures
            r == self.spec_height(),
    {
        self.0.len()
    }

    /// Adds a level on top, which multiplies the capacity by 16. Every bit
    /// keeps its value, and the new bits are unset.
    pub fn grow(&mut self)
        requires
            old(self).wf(),
        ensures
            final(self).wf(),
            final(self)@ == grow_layers(old(self)@),
            final(self).spec_height() == old(self).spec_height() + 1,
            final(self).spec_bits() == 16 * old(self).spec_bits(),
            forall|bit: nat| final(self).spec_get(bit) == old(self).spec_get(bit),
    {
        self.0.insert(0, Layer(vec![Cell::from(1)]));
        proof {
            let grown = grow_layers(old(self)@);
            assert(self@ =~~= grown);
            lemma_total_ones_single(1u16);
            assert(with_bit(0u16, 0, true) == 1u16) by (bit_vector);
            lemma_ones_below_with_bit(0u16, 0, true, 16);
            lemma_ones_below_zero(16);
            lemma_zero_bits(0);
            assert forall|i: int| 0 < i < grown.len() implies (#[trigger] grown[i]).len()
                == total_ones(grown[i - 1]) && grown[i].len() >= 1 by {
                if i > 1 {
                    assert(grown[i] == old(self)@[i - 1]);
                    assert(grown[i - 1] == old(self)@[i - 2]);
                }
            }
            assert forall|bit: nat| self.spec_get(bit) == old(self).spec_get(bit) by {
                lemma_grow_place(old(self)@, old(self)@.len(), bit);
            }
        }
    }

    /// Whether bit `bit` is set.
    ///
    /// The walk goes down from the root and stops at the first level on
    /// which the slot that covers the bit is unset: nothing below an unset
    /// slot is stored.
    pub fn get(&self, bit: usize) -> (r: bool)
        requires
            self.wf(),
            bit < self.spec_bits(),
        ensures
            r == self.spec_get(bit as nat),
    {
        let levels = self.0.len();
        let mut next_offset: usize = 0;
        let mut set = false;
        let mut layer_index: usize = 0;
        proof {
            lemma_path_ends(levels as nat, bit as nat);
        }
        while layer_index < levels
            invariant
                self.wf(),
                levels == self@.len(),
                bit < pow16(levels as nat),
                layer_index <= levels,
                layer_index > 0 ==> set,
                place(
                    self@,
                    layer_index as nat,
                    node_of(levels as nat, layer_index as nat, bit as nat),
                ).1,
                layer_index < levels ==> place(
                    self@,
                    layer_index as nat,
                    node_of(levels as nat, layer_index as nat, bit as nat),
                ).0 == next_offset,
            decreases levels - layer_index,
        {
            let height = levels - 1 - layer_index;
            proof {
                let node = node_of(levels as nat, layer_index as nat, bit as nat);
                lemma_place_bounds(self@, layer_index as nat, node);
                lemma_path_step(levels as nat, layer_index as nat, bit as nat);
                lemma_rank_bounds(
                    self@[layer_index as int],
                    next_offset as int,
                    slot_of(height as nat, bit as nat),
                );
                if height > 0 {
                    self.lemma_layer_fits(layer_index + 1);
                }
            }
            let found = self.0[layer_index].get((height, next_offset, bit));
            next_offset = found.0;
            set = found.1;
            if !set {
                proof {
                    lemma_path_absent(self@, bit as nat, (layer_index + 1) as nat, levels as nat);
                    lemma_path_ends(levels as nat, bit as nat);
                }
                return false;
            }
            layer_index = layer_index + 1;
        }
        proof {
            lemma_path_ends(levels as nat, bit as nat);
        }
        set
    }

    /// Sets the slot that covers `li.2` in the cell at offset `li.1` of
    /// level `layer_index`, after inserting an empty cell there if `create`
    /// says that the cell does not exist yet. Returns what [`Layer::set`]
    /// returns: the place of the child, and whether the child is new.
    fn set_slot(&mut self, layer_index: usize, li: LayerIndex, create: bool) -> (r: (usize, bool))
        requires
            layer_index < old(self)@.len(),
            is_place(old(self)@[layer_index as int], (li.1 as int, !create)),
            li.0 > 0 ==> total_ones(old(self)@[layer_index as int]) <= usize::MAX,
        ensures
            final(self)@ == old(self)@.update(
                layer_index as int,
                with_slot_set(
                    old(self)@[layer_index as int],
                    (li.1 as int, !create),
                    slot_of(li.0 as nat, li.2 as nat),
                ),
            ),
            !r.1 == child_place(
                old(self)@[layer_index as int],
                (li.1 as int, !create),
                slot_of(li.0 as nat, li.2 as nat),
            ).1,
            li.0 > 0 ==> r.0 == child_place(
                old(self)@[layer_index as int],
                (li.1 as int, !create),
                slot_of(li.0 as nat, li.2 as nat),
            ).0,
    {
        proof {
            lemma_set_in_steps(
                old(self)@[layer_index as int],
                (li.1 as int, !create),
                slot_of(li.0 as nat, li.2 as nat),
            );
        }
        if create {
            self.0[layer_index].insert_cell(li.1, Cell::default());
        }
        let r = self.0[layer_index].set(li);
        assert(self@ =~= old(self)@.update(layer_index as int, self.0@[layer_index as int]@));
        r
    }

    /// Sets bit `bit`.
    ///
    /// The walk goes down from the root and sets, on every level, the slot
    /// that covers the bit. Where a slot was unset, the child that it now
    /// stands for does not exist yet: an empty cell is inserted for it on
    /// the next level, at the offset that the rank of the slot gives, and
    /// the walk goes on in that cell.
    pub fn set(&mut self, bit: usize)
        requires
            old(self).wf(),
            bit < old(self).spec_bits(),
        ensures
            final(self).wf(),
            final(self)@ == set_layers(old(self)@, bit as nat),
            final(self).spec_height() == old(self).spec_height(),
            forall|other: nat|
                final(self).spec_get(other) == (other == bit || old(self).spec_get(other)),
            forall|level: int|
                0 <= level < old(self)@.len() ==> (#[trigger] final(self)@[level]).len() >= old(
                    self,
                )@[level].len(),
    {
        let levels = self.0.len();
        let mut next_offset: usize = 0;
        let mut should_create = false;
        let mut layer_index: usize = 0;
        proof {
            lemma_path_ends(levels as nat, bit as nat);
        }
        while layer_index < levels
            invariant
                well_formed(old(self)@),
                levels == old(self)@.len(),
                levels == self@.len(),
                bit < pow16(levels as nat),
                layer_index <= levels,
                forall|i: int|
                    0 <= i < layer_index ==> #[trigger] self@[i] == set_layer(
                        old(self)@,
                        i as nat,
                        bit as nat,
                    ),
                forall|i: int| layer_index <= i < levels ==> #[trigger] self@[i] == old(self)@[i],
                layer_index < levels ==> place(
                    old(self)@,
                    layer_index as nat,
                    node_of(levels as nat, layer_index as nat, bit as nat),
                ) == (next_offset as int, !should_create),
            decreases levels - layer_index,
        {
            let height = levels - 1 - layer_index;
            proof {
                lemma_place_bounds(
                    old(self)@,
                    layer_index as nat,
                    node_of(levels as nat, layer_index as nat, bit as nat),
                );
                lemma_path_step(levels as nat, layer_index as nat, bit as nat);
                if height > 0 {
                    old(self).lemma_layer_fits(layer_index + 1);
                }
            }
            let found = self.set_slot(layer_index, (height, next_offset, bit), should_create);
            next_offset = found.0;
            should_create = found.1;
            layer_index = layer_index + 1;
        }
        proof {
            assert(self@ =~= set_layers(old(self)@, bit as nat));
            lemma_set_well_formed(old(self)@, bit as nat);
            assert forall|other: nat|
                self.spec_get(other) == (other == bit || old(self).spec_get(other)) by {
                lemma_set_bits(old(self)@, bit as nat, other);
            }
        }
    }

    /// Clears bit `bit`.
    ///
    /// Only the bit itself is cleared, in its leaf cell. The slots above it
    /// stay set and no cell is removed, so a tree in which bits were set and
    /// cleared again holds more cells than one that never had them set.
    /// Where the walk from the root meets an unset slot, the bit is unset
    /// already and nothing changes.
    pub fn unset(&mut self, bit: usize)
        requires
            old(self).wf(),
            bit < old(self).spec_bits(),
        ensures
            final(self).wf(),
            final(self)@ == unset_layers(old(self)@, bit as nat),
            final(self).spec_height() == old(self).spec_height(),
            forall|other: nat|
                final(self).spec_get(other) == (other != bit && old(self).spec_get(other)),
            forall|level: int|
                0 <= level < old(self)@.len() ==> (#[trigger] final(self)@[level]).len() == old(
                    self,
                )@[level].len(),
    {
        let levels = self.0.len();
        let mut next_offset: usize = 0;
        let mut layer_index: usize = 0;
        proof {
            lemma_path_ends(levels as nat, bit as nat);
            assert(node_of(levels as nat, (levels - 1) as nat, bit as nat) == bit as nat / 16) by {
                assert(pow16(1) == 16) by {
                    assert(pow16(0) == 1);
                }
            }
            assert(slot_of(0, bit as nat) == bit as nat % 16) by {
                assert(pow16(0) == 1);
                assert(bit as nat / 1 == bit as nat);
            }
        }
        while layer_index < levels
            invariant_except_break
                self.wf(),
                *self == *old(self),
                layer_index < levels,
                place(
                    self@,
                    layer_index as nat,
                    node_of(levels as nat, layer_index as nat, bit as nat),
                ) == (next_offset as int, true),
            invariant
                levels == old(self)@.len(),
                bit < pow16(levels as nat),
                node_of(levels as nat, (levels - 1) as nat, bit as nat) == bit as nat / 16,
                slot_of(0, bit as nat) == bit as nat % 16,
            ensures
                self@ == unset_layers(old(self)@, bit as nat),
            decreases levels - layer_index,
        {
            let height = levels - 1 - layer_index;
            let li = (height, next_offset, bit);
            proof {
                let node = node_of(levels as nat, layer_index as nat, bit as nat);
                lemma_place_bounds(self@, layer_index as nat, node);
                lemma_path_step(levels as nat, layer_index as nat, bit as nat);
                lemma_rank_bounds(
                    self@[layer_index as int],
                    next_offset as int,
                    slot_of(height as nat, bit as nat),
                );
                if height > 0 {
                    self.lemma_layer_fits(layer_index + 1);
                }
            }
            if height == 0 {
                self.0[layer_index].unset(li);
                assert(self@ =~= unset_layers(old(self)@, bit as nat));
                break;
            } else {
                let found = self.0[layer_index].get(li);
                next_offset = found.0;
                if !found.1 {
                    proof {
                        lemma_path_absent(
                            self@,
                            bit as nat,
                            (layer_index + 1) as nat,
                            (levels - 1) as nat,
                        );
                    }
                    break;
                }
            }
            layer_index = layer_index + 1;
        }
        proof {
            lemma_unset_well_formed(old(self)@, bit as nat);
            assert forall|other: nat|
                self.spec_get(other) == (other != bit && old(self).spec_get(other)) by {
                lemma_unset_bits(old(self)@, bit as nat, other);
            }
        }
    }

    /// The raw words of all cells, level by level from the root down. The
    /// words alone describe the tree: [`Tree::from`] rebuilds it from them.
    pub fn to_vec(&self) -> (r: Vec<CellRepr>)
        ensures
            r@ == self@.flatten(),
    {
        let mut ret: Vec<CellRepr> = Vec::new();
        let mut i: usize = 0;
        while i < self.0.len()
            invariant
                i <= self.0@.len(),
                ret@ == self@.take(i as int).flatten(),
            decreases self.0@.len() - i,
        {
            let mut part = self.0[i].to_vec();
            ret.append(&mut part);
            proof {
                self@.take(i as int).lemma_flatten_push(self@[i as int]);
                assert(self@.take(i + 1) =~= self@.take(i as int).push(self@[i as int]));
            }
            i = i + 1;
        }
        assert(self@.take(i as int) =~= self@);
        ret
    }
    /// The leaf cells, each with the first bit that it covers, from left to
    /// right.
    ///
    /// The walk goes down level by level. It starts with the root at bit 0
    /// and finds, for every cell of a level and every set slot of that cell,
    /// where the child in that slot starts: at the start of the parent, moved
    /// on by the slot's index times the bits that one child covers.
    pub(crate) fn leaf_layer(&self) -> (r: Vec<(usize, Cell)>)
        requires
            self.wf(),
            self.spec_bits() <= usize::MAX,
        ensures
            is_leaf_map(self@, r@),
    {
        let levels = self.0.len();
        let mut layer_map: Vec<usize> = vec![0];
        let mut layer_index: usize = 0;
        proof {
            lemma_root_start(self@);
        }
        while layer_index < levels - 1
            invariant
                self.wf(),
                levels == self@.len(),
                pow16(levels as nat) <= usize::MAX,
                layer_index <= levels - 1,
                layer_map@.len() == self@[layer_index as int].len(),
                forall|k: int|
                    0 <= k < layer_map@.len() ==> starts_at(
                        self@,
                        layer_index as nat,
                        k,
                        #[trigger] layer_map@[k] as nat,
                    ),
            decreases levels - layer_index,
        {
            let height = levels - layer_index - 1;
            let ghost cells = self@[layer_index as int];
            proof {
                lemma_pow16_increases(height as nat, levels as nat);
                self.lemma_layer_fits(layer_index + 1);
                assert(cells.take(0) =~= Seq::<u16>::empty());
            }
            // The number of bits that one slot of this level stands for.
            let bits_per_bit = Layer::layer_bits(height - 1);
            let mut next_layer_map: Vec<usize> = Vec::new();
            let mut k: usize = 0;
            while k < self.0[layer_index].0.len()
                invariant
                    self.wf(),
                    levels == self@.len(),
                    pow16(levels as nat) <= usize::MAX,
                    layer_index < levels - 1,
                    height == levels - layer_index - 1,
                    bits_per_bit == pow16(height as nat),
                    cells == self@[layer_index as int],
                    cells.len() == self.0@[layer_index as int].0@.len(),
                    k <= cells.len(),
                    layer_map@.len() == cells.len(),
                    forall|j: int|
                        0 <= j < layer_map@.len() ==> starts_at(
                            self@,
                            layer_index as nat,
                            j,
                            #[trigger] layer_map@[j] as nat,
                        ),
                    next_layer_map@.len() == total_ones(cells.take(k as int)),
                    forall|j: int|
                        0 <= j < next_layer_map@.len() ==> starts_at(
                            self@,
                            (layer_index + 1) as nat,
                            j,
                            #[trigger] next_layer_map@[j] as nat,
                        ),
                decreases cells.len() - k,
            {
                let cell = self.0[layer_index].0[k];
                let offset = layer_map[k];
                let mut idx: usize = 0;
                proof {
                    assert(cell@ == cells[k as int]);
                    lemma_child_start(self@, layer_index as nat, k as int, offset as nat, 0);
                    lemma_total_ones_take_step(cells, k as int);
                }
                while idx < 16
                    invariant
                        self.wf(),
                        levels == self@.len(),
                        pow16(levels as nat) <= usize::MAX,
                        layer_index < levels - 1,
                        height == levels - layer_index - 1,
                        bits_per_bit == pow16(height as nat),
                        cells == self@[layer_index as int],
                        k < cells.len(),
                        cell@ == cells[k as int],
                        starts_at(self@, layer_index as nat, k as int, offset as nat),
                        offset + 16 * bits_per_bit <= usize::MAX,
                        idx <= 16,
                        next_layer_map@.len() == rank(cells, k as int, idx as nat),
                        forall|j: int|
                            0 <= j < next_layer_map@.len() ==> starts_at(
                                self@,
                                (layer_index + 1) as nat,
                                j,
                                #[trigger] next_layer_map@[j] as nat,
                            ),
                    decreases 16 - idx,
                {
                    if cell.get(idx) {
                        proof {
                            lemma_child_start(
                                self@,
                                layer_index as nat,
                                k as int,
                                offset as nat,
                                idx as nat,
                            );
                            assert(bits_per_bit * idx <= 15 * bits_per_bit) by (nonlinear_arith)
                                requires
                                    idx <= 15,
                            ;
                        }
                        next_layer_map.push(offset + bits_per_bit * idx);
                        assert(bits_per_bit * idx == idx * pow16(height as nat))
                            by (nonlinear_arith)
                            requires
                                bits_per_bit == pow16(height as nat),
                        ;
                    }
                    idx = idx + 1;
                }
                k = k + 1;
            }
            proof {
                assert(cells.take(k as int) =~= cells);
            }
            layer_map = next_layer_map;
            layer_index = layer_index + 1;
        }
        let mut leaves: Vec<(usize, Cell)> = Vec::new();
        let mut k: usize = 0;
        while k < layer_map.len()
            invariant
                levels == self@.len(),
                levels >= 1,
                layer_index == levels - 1,
                layer_map@.len() == self@[layer_index as int].len(),
                layer_map@.len() == self.0@[layer_index as int].0@.len(),
                k <= layer_map@.len(),
                leaves@.len() == k,
                forall|j: int|
                    0 <= j < k ==> (#[trigger] leaves@[j]).0 == layer_map@[j] && leaves@[j].1@
                        == self@[layer_index as int][j],
            decreases layer_map@.len() - k,
        {
            leaves.push((layer_map[k], self.0[layer_index].0[k]));
            k = k + 1;
        }
        leaves
    }
}

} // verus!
