//! How encoded triples lie in an index: the grouping by the leading id, the
//! chunk of each id, and when every id can have a chunk.

use vstd::prelude::*;

use crate::index::Index;
use crate::query::Query;
use crate::Triple;

verus! {

/// The triples of `triples` whose component at `index` is `id`, in their
/// order.
pub open spec fn group(triples: Seq<Triple>, index: Index, id: u64) -> Seq<Triple>
    decreases triples.len(),
{
    if triples.len() == 0 {
        Seq::empty()
    } else {
        let rest = group(triples.drop_last(), index, id);
        if index.component(triples.last()) == id {
            rest.push(triples.last())
        } else {
            rest
        }
    }
}

/// The residual pairs of `triples` under `index`, one after the other.
pub open spec fn pairs_of(index: Index, triples: Seq<Triple>) -> Seq<u64> {
    Seq::new(
        2 * triples.len(),
        |k: int|
            if k % 2 == 0 {
                index.residual(triples[k / 2]).0
            } else {
                index.residual(triples[k / 2]).1
            },
    )
}

/// The number of ids that `triples` spans at `index`: one more than the
/// greatest, and 0 where there is no triple.
pub open spec fn id_count(triples: Seq<Triple>, index: Index) -> nat
    decreases triples.len(),
{
    if triples.len() == 0 {
        0
    } else {
        let rest = id_count(triples.drop_last(), index);
        let here = (index.component(triples.last()) + 1) as nat;
        if here > rest {
            here
        } else {
            rest
        }
    }
}

/// Whether every id that `triples` spans at `index` leads at least one of
/// them, so that a row can stand at each id.
pub open spec fn dense(triples: Seq<Triple>, index: Index) -> bool {
    forall|id: u64| id < id_count(triples, index) ==> (#[trigger] group(triples, index, id)).len() > 0
}

/// The chunk that the index of `triples` led by `index` holds at `id`: the
/// residual pairs of the triples that `id` leads, in their order, and nothing
/// where it leads none.
pub open spec fn stored_chunk(triples: Seq<Triple>, index: Index, id: u64) -> Option<Seq<u64>> {
    if group(triples, index, id).len() > 0 {
        Some(pairs_of(index, group(triples, index, id)))
    } else {
        None
    }
}

/// The number of triples of `triples` that an id below `ids` leads.
pub open spec fn led_below(triples: Seq<Triple>, index: Index, ids: nat) -> nat
    decreases ids,
{
    if ids == 0 {
        0
    } else {
        led_below(triples, index, (ids - 1) as nat) + group(triples, index, (ids - 1) as u64).len()
    }
}

pub(crate) proof fn lemma_group_push(triples: Seq<Triple>, triple: Triple, index: Index, id: u64)
    ensures
        group(triples.push(triple), index, id) == if index.component(triple) == id {
            group(triples, index, id).push(triple)
        } else {
            group(triples, index, id)
        },
{
    assert(triples.push(triple).drop_last() =~= triples);
}

pub(crate) proof fn lemma_component_below_count(triples: Seq<Triple>, index: Index, j: int)
    requires
        0 <= j < triples.len(),
    ensures
        index.component(triples[j]) < id_count(triples, index),
    decreases triples.len(),
{
    if j < triples.len() - 1 {
        lemma_component_below_count(triples.drop_last(), index, j);
    }
}

pub(crate) proof fn lemma_group_members(triples: Seq<Triple>, index: Index, id: u64, k: int)
    requires
        0 <= k < group(triples, index, id).len(),
    ensures
        index.component(group(triples, index, id)[k]) == id,
        triples.contains(group(triples, index, id)[k]),
    decreases triples.len(),
{
    if triples.len() > 0 {
        let rest = group(triples.drop_last(), index, id);
        if k < rest.len() {
            lemma_group_members(triples.drop_last(), index, id, k);
            let w = choose|i: int| 0 <= i < triples.drop_last().len() && triples.drop_last()[i] == rest[k];
            assert(triples[w] == rest[k]);
        } else {
            assert(triples[triples.len() - 1] == triples.last());
        }
    }
}

pub(crate) proof fn lemma_group_of_member(triples: Seq<Triple>, index: Index, j: int)
    requires
        0 <= j < triples.len(),
    ensures
        group(triples, index, index.component(triples[j])).len() > 0,
    decreases triples.len(),
{
    if j < triples.len() - 1 {
        lemma_group_of_member(triples.drop_last(), index, j);
    }
}

pub(crate) proof fn lemma_group_beyond_count(triples: Seq<Triple>, index: Index, id: u64)
    requires
        id >= id_count(triples, index),
    ensures
        group(triples, index, id) == Seq::<Triple>::empty(),
    decreases triples.len(),
{
    if triples.len() > 0 {
        lemma_group_beyond_count(triples.drop_last(), index, id);
    }
}

pub(crate) proof fn lemma_led_below_push(
    triples: Seq<Triple>,
    triple: Triple,
    index: Index,
    ids: nat,
)
    requires
        ids <= u64::MAX + 1,
    ensures
        led_below(triples.push(triple), index, ids) == led_below(triples, index, ids) + if index.component(
            triple,
        ) < ids {
            1nat
        } else {
            0nat
        },
    decreases ids,
{
    if ids > 0 {
        lemma_led_below_push(triples, triple, index, (ids - 1) as nat);
        lemma_group_push(triples, triple, index, (ids - 1) as u64);
    }
}

pub(crate) proof fn lemma_led_below_empty(index: Index, ids: nat)
    ensures
        led_below(Seq::<Triple>::empty(), index, ids) == 0,
    decreases ids,
{
    if ids > 0 {
        lemma_led_below_empty(index, (ids - 1) as nat);
    }
}

/// The ids below `ids` lead no more triples than there are, and all of them
/// where they span every triple.
pub(crate) proof fn lemma_led_below_len(triples: Seq<Triple>, index: Index, ids: nat)
    requires
        ids <= u64::MAX + 1,
    ensures
        led_below(triples, index, ids) <= triples.len(),
        ids >= id_count(triples, index) ==> led_below(triples, index, ids) == triples.len(),
    decreases triples.len(),
{
    if triples.len() == 0 {
        lemma_led_below_empty(index, ids);
        assert(triples =~= Seq::empty());
    } else {
        lemma_led_below_len(triples.drop_last(), index, ids);
        lemma_led_below_push(triples.drop_last(), triples.last(), index, ids);
        assert(triples.drop_last().push(triples.last()) =~= triples);
    }
}

pub(crate) proof fn lemma_led_below_all(triples: Seq<Triple>, index: Index, ids: nat)
    requires
        ids <= u64::MAX + 1,
        forall|id: u64| id < ids ==> (#[trigger] group(triples, index, id)).len() > 0,
    ensures
        led_below(triples, index, ids) >= ids,
    decreases ids,
{
    if ids > 0 {
        lemma_led_below_all(triples, index, (ids - 1) as nat);
        assert(group(triples, index, (ids - 1) as u64).len() > 0);
    }
}

pub(crate) proof fn lemma_id_count_bound(triples: Seq<Triple>, index: Index)
    ensures
        id_count(triples, index) <= u64::MAX + 1,
    decreases triples.len(),
{
    if triples.len() > 0 {
        lemma_id_count_bound(triples.drop_last(), index);
    }
}

/// Where every spanned id leads a triple, there are at least as many triples
/// as ids.
pub proof fn lemma_dense_count(triples: Seq<Triple>, index: Index)
    requires
        dense(triples, index),
    ensures
        id_count(triples, index) <= triples.len(),
{
    let ids = id_count(triples, index);
    lemma_id_count_bound(triples, index);
    lemma_led_below_all(triples, index, ids);
    lemma_led_below_len(triples, index, ids);
}


/// The triples of `triples` that an id below `ids` leads, grouped by that id
/// in ascending order, each group in the order of `triples`.
pub open spec fn grouped(triples: Seq<Triple>, index: Index, ids: nat) -> Seq<Triple>
    decreases ids,
{
    if ids == 0 {
        Seq::empty()
    } else {
        grouped(triples, index, (ids - 1) as nat) + group(triples, index, (ids - 1) as u64)
    }
}

/// Whether `array` is known to hold the index of `triples` led by `index`:
/// at every id the chunk of the triples that the id leads, and none
/// elsewhere.
pub open spec fn holds<A: Query>(array: A, triples: Seq<Triple>, index: Index) -> bool {
    &&& array.known()
    &&& forall|id: u64| #[trigger] array.chunk(id) == stored_chunk(triples, index, id)
}

pub(crate) proof fn lemma_pairs_push(index: Index, triples: Seq<Triple>, triple: Triple)
    ensures
        pairs_of(index, triples.push(triple)) == pairs_of(index, triples).push(
            index.residual(triple).0,
        ).push(index.residual(triple).1),
{
    assert(pairs_of(index, triples.push(triple)) =~= pairs_of(index, triples).push(
        index.residual(triple).0,
    ).push(index.residual(triple).1));
}

pub(crate) proof fn lemma_pairs_concat(index: Index, first: Seq<Triple>, second: Seq<Triple>)
    ensures
        pairs_of(index, first + second) == pairs_of(index, first) + pairs_of(index, second),
{
    assert(pairs_of(index, first + second) =~= pairs_of(index, first) + pairs_of(index, second));
}

} // verus!
