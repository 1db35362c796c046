//! The serialized form of a tree: the raw words of its cells, level by
//! level from the root down, with nothing in between.
//!
//! The words describe themselves. The first word is the root. Every level
//! after it has one cell for each set bit of the level before, so the words
//! of a level end where the count of the level before says.

use crate::layer::total_ones;
use crate::model::well_formed;
use vstd::prelude::*;

verus! {

/// Reads the levels that follow the levels `layers` from the words `rest`.
///
/// As long as words are left, the next level takes as many of them as the
/// last level read has set bits. There is no next level to take them if that
/// count is zero, and there are too few words if it exceeds what is left: in
/// both cases the words describe no tree.
pub open spec fn decode_from(layers: Seq<Seq<u16>>, rest: Seq<u16>) -> Option<Seq<Seq<u16>>>
    decreases rest.len(),
{
    if rest.len() == 0 {
        Some(layers)
    } else {
        let n = total_ones(layers.last());
        if n == 0 || n > rest.len() {
            None
        } else {
            decode_from(layers.push(rest.take(n as int)), rest.skip(n as int))
        }
    }
}

/// The levels that the words `words` describe, if they describe a tree.
pub open spec fn decode(words: Seq<u16>) -> Option<Seq<Seq<u16>>> {
    if words.len() == 0 {
        None
    } else {
        decode_from(seq![seq![words[0]]], words.skip(1))
    }
}

/// Flattening from level `k` on gives level `k` and then the rest.
proof fn lemma_flatten_skip(layers: Seq<Seq<u16>>, k: int)
    requires
        0 <= k < layers.len(),
    ensures
        layers.skip(k).flatten() == layers[k] + layers.skip(k + 1).flatten(),
{
    assert(layers.skip(k).drop_first() =~= layers.skip(k + 1));
}

/// What is read after well-formed levels is well formed, and flattens to
/// those levels and the words read.
proof fn lemma_decode_from_sound(layers: Seq<Seq<u16>>, rest: Seq<u16>)
    requires
        well_formed(layers),
        decode_from(layers, rest) is Some,
    ensures
        well_formed(decode_from(layers, rest)->0),
        decode_from(layers, rest)->0.flatten() == layers.flatten() + rest,
    decreases rest.len(),
{
    if rest.len() == 0 {
        assert(layers.flatten() + rest =~= layers.flatten());
    } else {
        let n = total_ones(layers.last());
        let next = layers.push(rest.take(n as int));
        assert forall|i: int| 0 < i < next.len() implies (#[trigger] next[i]).len() == total_ones(
            next[i - 1],
        ) && next[i].len() >= 1 by {
            if i < layers.len() {
                assert(next[i] == layers[i]);
            }
        }
        lemma_decode_from_sound(next, rest.skip(n as int));
        layers.lemma_flatten_push(rest.take(n as int));
        assert(layers.flatten() + rest.take(n as int) + rest.skip(n as int) =~= layers.flatten()
            + rest);
    }
}

/// Reading the words of a well-formed tree from level `k` on, below its
/// first `k` levels, gives the tree.
proof fn lemma_decode_from_complete(layers: Seq<Seq<u16>>, k: int)
    requires
        well_formed(layers),
        1 <= k <= layers.len(),
    ensures
        decode_from(layers.take(k), layers.skip(k).flatten()) == Some(layers),
    decreases layers.len() - k,
{
    let rest = layers.skip(k).flatten();
    if k == layers.len() {
        assert(layers.skip(k) =~= Seq::<Seq<u16>>::empty());
        assert(layers.take(k) =~= layers);
    } else {
        lemma_flatten_skip(layers, k);
        let n = total_ones(layers.take(k).last());
        assert(layers.take(k).last() == layers[k - 1]);
        assert(layers[k].len() == total_ones(layers[k - 1]));
        assert(rest.take(n as int) =~= layers[k]);
        assert(rest.skip(n as int) =~= layers.skip(k + 1).flatten());
        assert(layers.take(k).push(layers[k]) =~= layers.take(k + 1));
        lemma_decode_from_complete(layers, k + 1);
    }
}

/// Words that describe a tree describe a well-formed one, and are the words
/// of that tree.
pub proof fn lemma_decode_sound(words: Seq<u16>)
    requires
        decode(words) is Some,
    ensures
        well_formed(decode(words)->0),
        decode(words)->0.flatten() == words,
{
    let root = seq![seq![words[0]]];
    lemma_decode_from_sound(root, words.skip(1));
    root.lemma_flatten_one_element();
    assert(root.first() + words.skip(1) =~= words);
}

/// The words of a tree describe that tree and no other: reading back what
/// was written gives the same levels, cell for cell.
pub proof fn lemma_decode_flatten(layers: Seq<Seq<u16>>)
    requires
        well_formed(layers),
    ensures
        decode(layers.flatten()) == Some(layers),
{
    let words = layers.flatten();
    lemma_flatten_skip(layers, 0);
    assert(layers.skip(0) =~= layers);
    assert(words.skip(1) =~= layers.skip(1).flatten());
    assert(seq![seq![words[0]]] =~~= layers.take(1));
    lemma_decode_from_complete(layers, 1);
}

/// Two well-formed trees with the same words are the same tree.
pub proof fn lemma_flatten_injective(a: Seq<Seq<u16>>, b: Seq<Seq<u16>>)
    requires
        well_formed(a),
        well_formed(b),
        a.flatten() == b.flatten(),
    ensures
        a == b,
{
    lemma_decode_flatten(a);
    lemma_decode_flatten(b);
}

} // verus!
