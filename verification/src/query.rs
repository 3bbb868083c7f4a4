//! The query engine: the pattern of a query, the index that answers it, the
//! rebuilding of triples from a probed row, and what a dataset answers.

use vstd::prelude::*;

use crate::Triple;
use crate::error::ZarrDfError;
use crate::index::Index;
use crate::layout::dense;
use crate::layout::group;
use crate::layout::grouped;
use crate::layout::id_count;
use crate::layout::lemma_component_below_count;
use crate::layout::lemma_group_beyond_count;
use crate::layout::lemma_group_members;
use crate::layout::lemma_id_count_bound;
use crate::layout::pairs_of;
use crate::storage::Storage;
use crate::storage::built_at;
use crate::storage::built_from;

verus! {

/// Whether `triple` has every component that the pattern binds.
pub open spec fn matches(
    triple: Triple,
    subject: Option<u64>,
    predicate: Option<u64>,
    object: Option<u64>,
) -> bool {
    &&& (subject matches Some(s) ==> triple[0] == s)
    &&& (predicate matches Some(p) ==> triple[1] == p)
    &&& (object matches Some(o) ==> triple[2] == o)
}

/// The triples of `triples` that match the pattern, in their order.
pub open spec fn matching(
    triples: Seq<Triple>,
    subject: Option<u64>,
    predicate: Option<u64>,
    object: Option<u64>,
) -> Seq<Triple>
    decreases triples.len(),
{
    if triples.len() == 0 {
        Seq::empty()
    } else {
        let rest = matching(triples.drop_last(), subject, predicate, object);
        if matches(triples.last(), subject, predicate, object) {
            rest.push(triples.last())
        } else {
            rest
        }
    }
}

/// The triples that the row of `index` at `id` stands for: each pair of the
/// row, with `id` put back at the leading position. A last element without a
/// partner stands for nothing.
pub open spec fn row_triples(index: Index, id: u64, row: Seq<u64>) -> Seq<Triple> {
    Seq::new((row.len() / 2) as nat, |j: int| index.expand(id, row[2 * j], row[2 * j + 1]))
}

/// The index that answers a pattern and the id at which it is probed: the
/// first bound position among subject, predicate and object. A pattern that
/// binds nothing selects no index.
pub open spec fn selected(
    subject: Option<u64>,
    predicate: Option<u64>,
    object: Option<u64>,
) -> Option<(Index, u64)> {
    match (subject, predicate, object) {
        (Some(s), _, _) => Some((Index::Subject, s)),
        (None, Some(p), _) => Some((Index::Predicate, p)),
        (None, None, Some(o)) => Some((Index::Object, o)),
        (None, None, None) => None,
    }
}

/// A chunked array of one index, probed one chunk at a time.
///
/// An array that the library has built knows what it holds: `known` is true
/// of it, and `chunk` gives its contents. Of an array in a store beyond the
/// library's reach nothing is known, and a probe of it may return anything
/// or fail.
pub trait Query {
    /// The elements of the chunk at `chunk`, row by row, or `None` where the
    /// array holds no such chunk.
    open spec fn chunk(&self, chunk: u64) -> Option<Seq<u64>> {
        None
    }

    /// Whether `chunk` says what the array holds, so that every probe returns
    /// what `chunk` gives and none fails for another reason than absence.
    open spec fn known(&self) -> bool {
        false
    }

    /// Reads the chunk at `chunk`. An absent chunk is `ChunkNotFound`; a
    /// failure of the storage is `ChunkStorage`.
    fn query(&self, chunk: u64) -> (result: Result<Vec<u64>, ZarrDfError>)
        ensures
            self.known() ==> match result {
                Ok(elements) => self.chunk(chunk) == Some(elements@),
                Err(ZarrDfError::ChunkNotFound(id)) => id == chunk && self.chunk(chunk) is None,
                Err(_) => false,
            },
    ;
}

/// The triples of the subject-led array `array` from the row at `from` on, up
/// to the first id at which it holds no row.
pub open spec fn scan_from<A: Query>(array: A, from: u64) -> Seq<Triple>
    decreases u64::MAX - from,
{
    match array.chunk(from) {
        None => Seq::empty(),
        Some(row) => {
            let here = row_triples(Index::Subject, from, row);
            if from < u64::MAX {
                here + scan_from(array, (from + 1) as u64)
            } else {
                here
            }
        },
    }
}

/// What a pattern query on `storage` returns, where the array that it probes
/// is known.
pub open spec fn answer<A: Query>(
    storage: Storage<A>,
    subject: Option<u64>,
    predicate: Option<u64>,
    object: Option<u64>,
) -> Result<Seq<Triple>, ZarrDfError> {
    match selected(subject, predicate, object) {
        Some((index, id)) => match storage.array(index) {
            None => Err(ZarrDfError::InvalidQuery),
            Some(array) => match array.chunk(id) {
                None => Err(ZarrDfError::ChunkNotFound(id)),
                Some(row) => Ok(matching(row_triples(index, id, row), subject, predicate, object)),
            },
        },
        None => match storage.subject {
            None => Err(ZarrDfError::InvalidQuery),
            Some(array) => Ok(scan_from(array, 0)),
        },
    }
}

/// Rebuilds the triples of one probed row and keeps those that match the
/// pattern.
pub fn expand_row(
    index: Index,
    id: u64,
    row: &Vec<u64>,
    subject: Option<u64>,
    predicate: Option<u64>,
    object: Option<u64>,
) -> (triples: Vec<Triple>)
    ensures
        triples@ == matching(row_triples(index, id, row@), subject, predicate, object),
{
    let mut triples: Vec<Triple> = Vec::new();
    let pairs: usize = row.len() / 2;
    let ghost all = row_triples(index, id, row@);
    let mut j: usize = 0;
    while j < pairs
        invariant
            j <= pairs,
            pairs == row@.len() / 2,
            row@.len() <= usize::MAX,
            all == row_triples(index, id, row@),
            triples@ == matching(all.take(j as int), subject, predicate, object),
        decreases pairs - j,
    {
        let triple = index.pair_to_triple(id, row[2 * j], row[2 * j + 1]);
        proof {
            assert(all.take(j + 1).drop_last() =~= all.take(j as int));
            assert(all.take(j + 1).last() == triple);
        }
        let keep = (match subject {
            Some(s) => triple[0] == s,
            None => true,
        }) && (match predicate {
            Some(p) => triple[1] == p,
            None => true,
        }) && (match object {
            Some(o) => triple[2] == o,
            None => true,
        });
        if keep {
            triples.push(triple);
        }
        j += 1;
    }
    proof {
        assert(all.take(pairs as int) =~= all);
    }
    triples
}

/// Every triple that a pattern finds matches the pattern.
pub proof fn lemma_matching_matches(
    triples: Seq<Triple>,
    subject: Option<u64>,
    predicate: Option<u64>,
    object: Option<u64>,
)
    ensures
        forall|i: int|
            0 <= i < matching(triples, subject, predicate, object).len() ==> matches(
                #[trigger] matching(triples, subject, predicate, object)[i],
                subject,
                predicate,
                object,
            ),
    decreases triples.len(),
{
    if triples.len() > 0 {
        let rest = matching(triples.drop_last(), subject, predicate, object);
        let found = matching(triples, subject, predicate, object);
        lemma_matching_matches(triples.drop_last(), subject, predicate, object);
        assert forall|i: int| 0 <= i < found.len() implies matches(
            #[trigger] found[i],
            subject,
            predicate,
            object,
        ) by {
            if i < rest.len() {
                assert(found[i] == rest[i]);
            }
        }
    }
}

/// A pattern that binds nothing keeps every triple.
pub proof fn lemma_matching_unbound(triples: Seq<Triple>)
    ensures
        matching(triples, None, None, None) == triples,
    decreases triples.len(),
{
    if triples.len() > 0 {
        lemma_matching_unbound(triples.drop_last());
        assert(triples.drop_last().push(triples.last()) =~= triples);
    } else {
        assert(triples =~= Seq::empty());
    }
}

/// Exact-match retrieval by a pattern that binds any of the three positions.
pub trait BasicGraphPattern {
    /// The triples that match the pattern: a bound position holds the id that
    /// it is bound to.
    fn triples_matching(
        &self,
        subject: Option<u64>,
        predicate: Option<u64>,
        object: Option<u64>,
    ) -> (result: Result<Vec<Triple>, ZarrDfError>)
        ensures
            result matches Ok(triples) ==> forall|i: int|
                0 <= i < triples@.len() ==> matches(
                    #[trigger] triples@[i],
                    subject,
                    predicate,
                    object,
                ),
    ;
}

/// The index that a pattern probes: the one that `selected` gives, and the
/// subject index for a pattern that binds nothing.
pub open spec fn probed(
    subject: Option<u64>,
    predicate: Option<u64>,
    object: Option<u64>,
) -> Index {
    match selected(subject, predicate, object) {
        Some((index, _)) => index,
        None => Index::Subject,
    }
}

impl<A: Query> Storage<A> {
    /// The triples of the row of subject `id`, or `None` where the subject
    /// index holds no such row: one step of a scan over all rows. A scan that
    /// is made row by row need not hold more than one row at a time, and can
    /// be made again from any row.
    pub fn scan_row(&self, id: u64) -> (result: Result<Option<Vec<Triple>>, ZarrDfError>)
        ensures
            self.subject is None ==> result matches Err(ZarrDfError::InvalidQuery),
            self.knows(Index::Subject) ==> match result {
                Ok(Some(triples)) => self.subject->0.chunk(id) matches Some(row) && triples@
                    == row_triples(Index::Subject, id, row),
                Ok(None) => self.subject->0.chunk(id) is None,
                Err(_) => false,
            },
    {
        match &self.subject {
            None => Err(ZarrDfError::InvalidQuery),
            Some(array) => match array.query(id) {
                Ok(row) => {
                    let triples = expand_row(Index::Subject, id, &row, None, None, None);
                    proof {
                        lemma_matching_unbound(row_triples(Index::Subject, id, row@));
                    }
                    Ok(Some(triples))
                },
                Err(ZarrDfError::ChunkNotFound(_)) => Ok(None),
                Err(e) => Err(e),
            },
        }
    }

    /// Every triple of the subject index: its rows from id 0 on, up to the
    /// first id without a row.
    pub fn scan(&self) -> (result: Result<Vec<Triple>, ZarrDfError>)
        ensures
            self.subject is None ==> result matches Err(ZarrDfError::InvalidQuery),
            self.knows(Index::Subject) ==> (result matches Ok(triples) && triples@ == scan_from(
                self.subject->0,
                0,
            )),
    {
        let mut triples: Vec<Triple> = Vec::new();
        let mut id: u64 = 0;
        loop
            invariant
                self.knows(Index::Subject) ==> triples@ + scan_from(self.subject->0, id)
                    == scan_from(self.subject->0, 0),
            decreases u64::MAX - id,
        {
            match self.scan_row(id)? {
                None => {
                    proof {
                        let array = self.subject->0;
                        assert(self.knows(Index::Subject) ==> triples@ + scan_from(array, id)
                            =~= triples@);
                    }
                    return Ok(triples);
                },
                Some(mut row) => {
                    let ghost before = triples@;
                    let ghost here = row@;
                    triples.append(&mut row);
                    if id == u64::MAX {
                        proof {
                            let array = self.subject->0;
                            assert(self.knows(Index::Subject) ==> scan_from(array, id) == here);
                        }
                        return Ok(triples);
                    }
                    proof {
                        let array = self.subject->0;
                        if self.knows(Index::Subject) {
                            assert(scan_from(array, id) == here + scan_from(array, (id + 1) as u64));
                            assert((before + here) + scan_from(array, (id + 1) as u64) =~= before
                                + (here + scan_from(array, (id + 1) as u64)));
                        }
                    }
                    id += 1;
                },
            }
        }
    }
}

impl<A: Query> BasicGraphPattern for Storage<A> {
    /// The index of the first bound position is probed at the id bound
    /// there, and the triples of that row are filtered by the other bound
    /// positions; a pattern that binds nothing scans the subject index. The
    /// query is invalid where the index that it probes was not opened.
    fn triples_matching(
        &self,
        subject: Option<u64>,
        predicate: Option<u64>,
        object: Option<u64>,
    ) -> (result: Result<Vec<Triple>, ZarrDfError>)
        ensures
            self.array(probed(subject, predicate, object)) is None ==> result matches Err(
                ZarrDfError::InvalidQuery,
            ),
            self.knows(probed(subject, predicate, object)) ==> match result {
                Ok(triples) => answer(*self, subject, predicate, object) == Ok::<
                    Seq<Triple>,
                    ZarrDfError,
                >(triples@),
                Err(e) => answer(*self, subject, predicate, object) == Err::<Seq<Triple>, ZarrDfError>(
                    e,
                ),
            },
    {
        let (index, id) = match (subject, predicate, object) {
            (Some(s), _, _) => (Index::Subject, s),
            (None, Some(p), _) => (Index::Predicate, p),
            (None, None, Some(o)) => (Index::Object, o),
            (None, None, None) => {
                return self.scan();
            },
        };
        let array = match index {
            Index::Subject => &self.subject,
            Index::Predicate => &self.predicate,
            Index::Object => &self.object,
        };
        match array {
            None => Err(ZarrDfError::InvalidQuery),
            Some(array) => match array.query(id) {
                Ok(row) => {
                    proof {
                        lemma_matching_matches(
                            row_triples(index, id, row@),
                            subject,
                            predicate,
                            object,
                        );
                    }
                    Ok(expand_row(index, id, &row, subject, predicate, object))
                },
                Err(e) => Err(e),
            },
        }
    }
}

/// The row that an index holds for a group of triples stands for these
/// triples again.
pub proof fn lemma_row_of_group(index: Index, id: u64, members: Seq<Triple>)
    requires
        forall|k: int| 0 <= k < members.len() ==> index.component(#[trigger] members[k]) == id,
    ensures
        row_triples(index, id, pairs_of(index, members)) == members,
{
    let back = row_triples(index, id, pairs_of(index, members));
    assert(back.len() == members.len());
    assert forall|k: int| 0 <= k < members.len() implies back[k] == members[k] by {
        crate::index::lemma_expand_residual(index, members[k]);
    }
    assert(back =~= members);
}

/// The component that a pattern binds at the position `index`.
pub open spec fn bound_at(
    index: Index,
    subject: Option<u64>,
    predicate: Option<u64>,
    object: Option<u64>,
) -> Option<u64> {
    match index {
        Index::Subject => subject,
        Index::Predicate => predicate,
        Index::Object => object,
    }
}

/// Filtering the triples that `id` leads by a pattern that binds the leading
/// position to `id` finds what filtering all triples finds.
pub proof fn lemma_matching_group(
    triples: Seq<Triple>,
    index: Index,
    id: u64,
    subject: Option<u64>,
    predicate: Option<u64>,
    object: Option<u64>,
)
    requires
        bound_at(index, subject, predicate, object) == Some(id),
    ensures
        matching(group(triples, index, id), subject, predicate, object) == matching(
            triples,
            subject,
            predicate,
            object,
        ),
    decreases triples.len(),
{
    if triples.len() > 0 {
        let rest = triples.drop_last();
        let last = triples.last();
        lemma_matching_group(rest, index, id, subject, predicate, object);
        if index.component(last) == id {
            assert(group(triples, index, id).drop_last() =~= group(rest, index, id));
        }
    }
}

/// A pattern that binds a position is answered from the index of the first
/// bound position: where the id bound there leads a triple, the answer is
/// the triples that match the pattern, all of them and no other, in the
/// order in which they were indexed; where it leads none, the index has no
/// chunk at that id.
pub proof fn lemma_bound_answer<A: Query>(
    storage: Storage<A>,
    triples: Seq<Triple>,
    subject: Option<u64>,
    predicate: Option<u64>,
    object: Option<u64>,
)
    requires
        built_from(storage, triples),
        selected(subject, predicate, object) is Some,
    ensures
        ({
            let (index, id) = selected(subject, predicate, object)->0;
            answer(storage, subject, predicate, object) == if group(triples, index, id).len() > 0 {
                Ok::<Seq<Triple>, ZarrDfError>(matching(triples, subject, predicate, object))
            } else {
                Err::<Seq<Triple>, ZarrDfError>(ZarrDfError::ChunkNotFound(id))
            }
        }),
{
    let (index, id) = selected(subject, predicate, object)->0;
    match index {
        Index::Subject => assert(built_at(storage, triples, Index::Subject)),
        Index::Predicate => assert(built_at(storage, triples, Index::Predicate)),
        Index::Object => assert(built_at(storage, triples, Index::Object)),
    }
    let array = storage.array(index)->0;
    let members = group(triples, index, id);
    assert(array.chunk(id) == crate::layout::stored_chunk(triples, index, id));
    if members.len() > 0 {
        assert forall|k: int| 0 <= k < members.len() implies index.component(
            #[trigger] members[k],
        ) == id by {
            lemma_group_members(triples, index, id, k);
        }
        lemma_row_of_group(index, id, members);
        lemma_matching_group(triples, index, id, subject, predicate, object);
    }
}

/// Scanning the subject index from the row at `from` on finds the triples
/// that the ids from `from` on lead, in ascending order of these ids.
proof fn lemma_scan_grouped<A: Query>(array: A, triples: Seq<Triple>, from: u64)
    requires
        crate::layout::holds(array, triples, Index::Subject),
        dense(triples, Index::Subject),
        from <= id_count(triples, Index::Subject),
    ensures
        grouped(triples, Index::Subject, from as nat) + scan_from(array, from) == grouped(
            triples,
            Index::Subject,
            id_count(triples, Index::Subject),
        ),
    decreases id_count(triples, Index::Subject) - from,
{
    let index = Index::Subject;
    let ids = id_count(triples, index);
    let members = group(triples, index, from);
    assert(array.chunk(from) == crate::layout::stored_chunk(triples, index, from));
    if from < ids {
        assert(members.len() > 0);
        assert forall|k: int| 0 <= k < members.len() implies index.component(
            #[trigger] members[k],
        ) == from by {
            lemma_group_members(triples, index, from, k);
        }
        lemma_row_of_group(index, from, members);
        assert(grouped(triples, index, (from + 1) as nat) == grouped(triples, index, from as nat)
            + members);
        if from < u64::MAX {
            lemma_scan_grouped(array, triples, (from + 1) as u64);
            assert((grouped(triples, index, from as nat) + members) + scan_from(
                array,
                (from + 1) as u64,
            ) =~= grouped(triples, index, from as nat) + (members + scan_from(
                array,
                (from + 1) as u64,
            )));
        } else {
            lemma_id_count_bound(triples, index);
        }
    } else {
        lemma_group_beyond_count(triples, index, from);
        assert(grouped(triples, index, from as nat) + scan_from(array, from) =~= grouped(
            triples,
            index,
            from as nat,
        ));
    }
}

/// How often `triple` occurs among the triples that `id` leads: as often as
/// among all triples where `id` leads it, and never where it does not.
proof fn lemma_group_occurrences(triples: Seq<Triple>, index: Index, id: u64, triple: Triple)
    ensures
        group(triples, index, id).to_multiset().count(triple) == if index.component(triple) == id {
            triples.to_multiset().count(triple)
        } else {
            0
        },
    decreases triples.len(),
{
    broadcast use vstd::multiset::group_multiset_axioms;
    broadcast use vstd::seq_lib::to_multiset_build;

    if triples.len() == 0 {
        assert(triples =~= Seq::<Triple>::empty());
        assert(group(triples, index, id) =~= Seq::<Triple>::empty());
        assert(Seq::<Triple>::empty().to_multiset() =~= vstd::multiset::Multiset::empty()) by {
            Seq::<Triple>::empty().to_multiset_ensures();
        }
    } else {
        let rest = triples.drop_last();
        let last = triples.last();
        lemma_group_occurrences(rest, index, id, triple);
        assert(rest.push(last) =~= triples);
    }
}

proof fn lemma_grouped_occurrences(triples: Seq<Triple>, index: Index, ids: nat, triple: Triple)
    requires
        ids <= u64::MAX + 1,
    ensures
        grouped(triples, index, ids).to_multiset().count(triple) == if index.component(triple)
            < ids {
            triples.to_multiset().count(triple)
        } else {
            0
        },
    decreases ids,
{
    broadcast use vstd::multiset::group_multiset_axioms;

    if ids == 0 {
        assert(Seq::<Triple>::empty().to_multiset() =~= vstd::multiset::Multiset::empty()) by {
            Seq::<Triple>::empty().to_multiset_ensures();
        }
    } else {
        let before = (ids - 1) as nat;
        lemma_grouped_occurrences(triples, index, before, triple);
        lemma_group_occurrences(triples, index, before as u64, triple);
        vstd::seq_lib::lemma_multiset_commutative(
            grouped(triples, index, before),
            group(triples, index, before as u64),
        );
    }
}

/// Grouping triples by the ids of a position moves them but neither adds nor
/// loses one.
pub proof fn lemma_grouped_permutes(triples: Seq<Triple>, index: Index)
    ensures
        grouped(triples, index, id_count(triples, index)).to_multiset() == triples.to_multiset(),
{
    broadcast use vstd::seq_lib::to_multiset_contains;

    let ids = id_count(triples, index);
    lemma_id_count_bound(triples, index);
    assert forall|triple: Triple|
        grouped(triples, index, ids).to_multiset().count(triple) == triples.to_multiset().count(
            triple,
        ) by {
        lemma_grouped_occurrences(triples, index, ids, triple);
        if index.component(triple) >= ids {
            if triples.contains(triple) {
                let j = choose|j: int| 0 <= j < triples.len() && triples[j] == triple;
                lemma_component_below_count(triples, index, j);
            }
        }
    }
    assert(grouped(triples, index, ids).to_multiset() =~= triples.to_multiset());
}

/// A pattern that binds nothing is answered by a scan of the subject index,
/// which finds every indexed triple as often as it was indexed: the triples
/// grouped by subject, in ascending order of the subject ids.
pub proof fn lemma_scan_answer<A: Query>(storage: Storage<A>, triples: Seq<Triple>)
    requires
        built_from(storage, triples),
        dense(triples, Index::Subject),
    ensures
        answer(storage, None, None, None) == Ok::<Seq<Triple>, ZarrDfError>(
            grouped(triples, Index::Subject, id_count(triples, Index::Subject)),
        ),
        grouped(triples, Index::Subject, id_count(triples, Index::Subject)).to_multiset()
            == triples.to_multiset(),
{
    assert(built_at(storage, triples, Index::Subject));
    let array = storage.subject->0;
    lemma_scan_grouped(array, triples, 0);
    assert(grouped(triples, Index::Subject, 0) + scan_from(array, 0) =~= scan_from(array, 0));
    lemma_grouped_permutes(triples, Index::Subject);
}

/// How often `triple` occurs among the triples that match a pattern: as
/// often as among all triples where it matches, and never where it does not.
pub proof fn lemma_matching_occurrences(
    triples: Seq<Triple>,
    subject: Option<u64>,
    predicate: Option<u64>,
    object: Option<u64>,
    triple: Triple,
)
    ensures
        matching(triples, subject, predicate, object).to_multiset().count(triple) == if matches(
            triple,
            subject,
            predicate,
            object,
        ) {
            triples.to_multiset().count(triple)
        } else {
            0
        },
    decreases triples.len(),
{
    broadcast use vstd::multiset::group_multiset_axioms;
    broadcast use vstd::seq_lib::to_multiset_build;

    if triples.len() == 0 {
        assert(triples =~= Seq::<Triple>::empty());
        assert(Seq::<Triple>::empty().to_multiset() =~= vstd::multiset::Multiset::empty()) by {
            Seq::<Triple>::empty().to_multiset_ensures();
        }
    } else {
        let rest = triples.drop_last();
        let last = triples.last();
        lemma_matching_occurrences(rest, subject, predicate, object, triple);
        assert(rest.push(last) =~= triples);
    }
}

/// What matches a pattern is what matches each of its bound positions alone:
/// the triples that all three single-position answers share.
pub proof fn lemma_matching_intersection(
    triples: Seq<Triple>,
    subject: Option<u64>,
    predicate: Option<u64>,
    object: Option<u64>,
)
    ensures
        matching(triples, subject, predicate, object).to_multiset() == matching(
            triples,
            subject,
            None,
            None,
        ).to_multiset().intersection_with(
            matching(triples, None, predicate, None).to_multiset(),
        ).intersection_with(matching(triples, None, None, object).to_multiset()),
{
    broadcast use vstd::multiset::group_multiset_axioms;

    let all = matching(triples, subject, predicate, object).to_multiset();
    let by_subject = matching(triples, subject, None, None).to_multiset();
    let by_predicate = matching(triples, None, predicate, None).to_multiset();
    let by_object = matching(triples, None, None, object).to_multiset();
    let shared = by_subject.intersection_with(by_predicate).intersection_with(by_object);
    assert forall|triple: Triple| all.count(triple) == shared.count(triple) by {
        lemma_matching_occurrences(triples, subject, predicate, object, triple);
        lemma_matching_occurrences(triples, subject, None, None, triple);
        lemma_matching_occurrences(triples, None, predicate, None, triple);
        lemma_matching_occurrences(triples, None, None, object, triple);
        vstd::multiset::lemma_intersection_count(by_subject, by_predicate, triple);
        vstd::multiset::lemma_intersection_count(
            by_subject.intersection_with(by_predicate),
            by_object,
            triple,
        );
    }
    assert(all =~= shared);
}

} // verus!
