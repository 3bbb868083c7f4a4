//! Datasets: reading a source, encoding its triples, building the three
//! indexes, and putting a persisted dataset together again.

use vstd::prelude::*;

use crate::array::write_index;
use crate::array::IndexArray;
use crate::dictionary::all_storable;
use crate::dictionary::id_of;
use crate::dictionary::lemma_id_of;
use crate::dictionary::Dictionary;
use crate::dictionary::Vocabulary;
use crate::error::ZarrDfError;
use crate::index::Index;
use crate::layout::dense;
use crate::layout::group;
use crate::layout::holds;
use crate::layout::id_count;
use crate::layout::lemma_group_beyond_count;
use crate::layout::lemma_group_of_member;
use crate::order::term_views;
use crate::order::vocabulary_of;
use crate::query::answer;
use crate::query::lemma_bound_answer;
use crate::query::lemma_scan_answer;
use crate::query::matching;
use crate::query::selected;
use crate::query::Query;
use crate::rdf_format::format_of;
use crate::rdf_format::unknown_name;
use crate::rdf_format::RdfFormat;
use crate::utils::plain_term;
use crate::utils::serialize_term;
use crate::utils::serialized;
use crate::utils::value_is_terms;
use crate::utils::value_terms;
use crate::utils::value_to_rdf;
use crate::utils::RdfTerm;
use crate::Triple;

verus! {

/// A dataset: the dictionary of its terms and its three indexes, each an
/// array that may not have been opened.
pub struct Storage<A: Query> {
    pub dictionary: Dictionary,
    pub subject: Option<A>,
    pub predicate: Option<A>,
    pub object: Option<A>,
}

impl<A: Query> Storage<A> {
    /// The array of the index that `index` leads, if it was opened.
    pub open spec fn array(&self, index: Index) -> Option<A> {
        match index {
            Index::Subject => self.subject,
            Index::Predicate => self.predicate,
            Index::Object => self.object,
        }
    }

    /// Whether the index that `index` leads was opened and is known.
    pub open spec fn knows(&self, index: Index) -> bool {
        self.array(index) is Some && self.array(index)->0.known()
    }
}

/// The terms that `triples` have at the position `index`, triple by triple.
pub open spec fn terms_at(triples: Seq<[String; 3]>, index: Index) -> Seq<Seq<char>> {
    Seq::new(
        triples.len(),
        |i: int|
            match index {
                Index::Subject => triples[i][0]@,
                Index::Predicate => triples[i][1]@,
                Index::Object => triples[i][2]@,
            },
    )
}

/// The ids of the three terms of `triple`, or `None` where the vocabulary
/// lacks one of them.
pub open spec fn encoded(vocabulary: Vocabulary, triple: [String; 3]) -> Option<Triple> {
    match (
        id_of(vocabulary.subjects, triple[0]@),
        id_of(vocabulary.predicates, triple[1]@),
        id_of(vocabulary.objects, triple[2]@),
    ) {
        (Some(s), Some(p), Some(o)) => Some([s, p, o]),
        _ => None,
    }
}

/// The encoded triples of `triples`, in their order; a triple with a term
/// that the vocabulary lacks is left out.
pub open spec fn encoding(vocabulary: Vocabulary, triples: Seq<[String; 3]>) -> Seq<Triple>
    decreases triples.len(),
{
    if triples.len() == 0 {
        Seq::empty()
    } else {
        let rest = encoding(vocabulary, triples.drop_last());
        match encoded(vocabulary, triples.last()) {
            Some(triple) => rest.push(triple),
            None => rest,
        }
    }
}

/// Whether the terms of `vocabulary` at the position `index` are the
/// distinct terms of `triples` at that position, in ascending order.
pub open spec fn describes_at(
    vocabulary: Vocabulary,
    triples: Seq<[String; 3]>,
    index: Index,
) -> bool {
    &&& vocabulary_of(vocabulary.terms(index), terms_at(triples, index))
    &&& vocabulary.terms(index).len() <= usize::MAX
}

/// Whether `vocabulary` is the vocabulary of `triples`: at each position the
/// distinct terms of that position, in ascending order.
pub open spec fn describes(vocabulary: Vocabulary, triples: Seq<[String; 3]>) -> bool {
    &&& describes_at(vocabulary, triples, Index::Subject)
    &&& describes_at(vocabulary, triples, Index::Predicate)
    &&& describes_at(vocabulary, triples, Index::Object)
}

/// Whether the index of `storage` led by `index` is opened and holds
/// `triples`.
pub open spec fn built_at<A: Query>(
    storage: Storage<A>,
    triples: Seq<Triple>,
    index: Index,
) -> bool {
    storage.array(index) matches Some(array) && holds(array, triples, index)
}

/// Whether the three indexes of `storage` are opened and hold `triples`.
pub open spec fn built_from<A: Query>(storage: Storage<A>, triples: Seq<Triple>) -> bool {
    &&& built_at(storage, triples, Index::Subject)
    &&& built_at(storage, triples, Index::Predicate)
    &&& built_at(storage, triples, Index::Object)
}

/// Whether each of the three arrays of `storage` is laid out as the index of
/// `triples` that its position leads.
pub open spec fn laid_out_as(storage: Storage<IndexArray>, triples: Seq<Triple>) -> bool {
    &&& storage.subject matches Some(array) && array.laid_out_for(triples, Index::Subject)
    &&& storage.predicate matches Some(array) && array.laid_out_for(triples, Index::Predicate)
    &&& storage.object matches Some(array) && array.laid_out_for(triples, Index::Object)
}

/// Whether the ids of `triples` at the position `index` are those of
/// `vocabulary`: every id of a term leads a triple, and no other id occurs.
pub open spec fn spans_at(triples: Seq<Triple>, vocabulary: Vocabulary, index: Index) -> bool {
    dense(triples, index) && id_count(triples, index) == vocabulary.terms(index).len()
}

/// Whether the ids of `triples` are those of `vocabulary` at each position.
pub open spec fn spans(triples: Seq<Triple>, vocabulary: Vocabulary) -> bool {
    &&& spans_at(triples, vocabulary, Index::Subject)
    &&& spans_at(triples, vocabulary, Index::Predicate)
    &&& spans_at(triples, vocabulary, Index::Object)
}

/// Keeps a triple none of whose terms is written as the empty string.
pub fn valid_triple(subject: RdfTerm, predicate: RdfTerm, object: RdfTerm) -> (triple: Option<
    [String; 3],
>)
    ensures
        match triple {
            Some(triple) => {
                &&& triple[0]@ == serialized(subject)
                &&& triple[1]@ == serialized(predicate)
                &&& triple[2]@ == serialized(object)
                &&& triple[0]@.len() > 0
                &&& triple[1]@.len() > 0
                &&& triple[2]@.len() > 0
            },
            None => serialized(subject).len() == 0 || serialized(predicate).len() == 0
                || serialized(object).len() == 0,
        },
{
    let subject = serialize_term(subject);
    let predicate = serialize_term(predicate);
    let object = serialize_term(object);
    if subject.as_str().is_empty() || predicate.as_str().is_empty() || object.as_str().is_empty() {
        None
    } else {
        Some([subject, predicate, object])
    }
}

/// `oxrdfio::RdfParser::for_slice` on a parser made by `from_format` for the
/// serialization `format`: the subject, predicate and object of every quad
/// that the parser reads from `rdf`, in its order; what it cannot read is
/// passed over. Blank nodes without a label get one by chance, so nothing is
/// said of the terms.
#[verifier::external_body]
fn parse_terms(rdf: &[u8], format: RdfFormat) -> (terms: Vec<
    (oxrdf::Term, oxrdf::Term, oxrdf::Term),
>) {
    let format = match format {
        RdfFormat::NTriples => oxrdfio::RdfFormat::NTriples,
        RdfFormat::Turtle => oxrdfio::RdfFormat::Turtle,
        RdfFormat::RdfXml => oxrdfio::RdfFormat::RdfXml,
        RdfFormat::TriG => oxrdfio::RdfFormat::TriG,
        RdfFormat::N3 => oxrdfio::RdfFormat::N3,
        RdfFormat::NQuads => oxrdfio::RdfFormat::NQuads,
    };
    let quads = oxrdfio::RdfParser::from_format(format).for_slice(rdf).flatten();
    quads.map(|quad| (quad.subject.into(), quad.predicate.into(), quad.object)).collect()
}

/// Whether every term of `triples` is a string of at least one character.
pub open spec fn all_written(triples: Seq<[String; 3]>) -> bool {
    forall|i: int|
        0 <= i < triples.len() ==> {
            &&& (#[trigger] triples[i])[0]@.len() > 0
            &&& triples[i][1]@.len() > 0
            &&& triples[i][2]@.len() > 0
        }
}

/// The three terms of a triple.
pub open spec fn triple_view(triple: [String; 3]) -> (Seq<char>, Seq<char>, Seq<char>) {
    (triple[0]@, triple[1]@, triple[2]@)
}

/// The terms of `triples`, triple by triple.
pub open spec fn triple_views(triples: Seq<[String; 3]>) -> Seq<(Seq<char>, Seq<char>, Seq<char>)> {
    Seq::new(triples.len(), |i: int| triple_view(triples[i]))
}

/// The triples that are kept of `parsed`, in their order: each as its three
/// terms are written, and none that has a term written as the empty string.
pub open spec fn kept(parsed: Seq<(RdfTerm, RdfTerm, RdfTerm)>) -> Seq<
    (Seq<char>, Seq<char>, Seq<char>),
>
    decreases parsed.len(),
{
    if parsed.len() == 0 {
        Seq::empty()
    } else {
        let rest = kept(parsed.drop_last());
        let subject = serialized(parsed.last().0);
        let predicate = serialized(parsed.last().1);
        let object = serialized(parsed.last().2);
        if subject.len() > 0 && predicate.len() > 0 && object.len() > 0 {
            rest.push((subject, predicate, object))
        } else {
            rest
        }
    }
}

/// Writes the triples that a parser has read as the dictionary knows their
/// terms, in their order. A triple with a term that is written as the empty
/// string is left out.
pub fn valid_triples(parsed: Vec<(RdfTerm, RdfTerm, RdfTerm)>) -> (triples: Vec<[String; 3]>)
    ensures
        triple_views(triples@) == kept(parsed@),
        all_written(triples@),
{
    let ghost all = parsed@;
    let mut triples: Vec<[String; 3]> = Vec::new();
    proof {
        assert(triple_views(triples@) =~= kept(all.take(0)));
    }
    for terms in it: parsed
        invariant
            it.seq() == all,
            all_written(triples@),
            triple_views(triples@) == kept(all.take(it.index() as int)),
    {
        let ghost done = it.index() as int;
        let ghost before = triple_views(triples@);
        proof {
            assert(all.take(done + 1).drop_last() =~= all.take(done));
            assert(all.take(done + 1).last() == terms);
        }
        let (subject, predicate, object) = terms;
        match valid_triple(subject, predicate, object) {
            Some(triple) => {
                triples.push(triple);
                proof {
                    assert(triple_views(triples@) =~= before.push(triple_view(triple)));
                }
            },
            None => {},
        }
    }
    proof {
        assert(all.take(all.len() as int) =~= all);
    }
    triples
}

/// Reads the triples of a source text in the serialization `format`, each
/// term written as the dictionary knows it. A triple with a term that is
/// written as the empty string is left out.
pub fn read_rdf(rdf: &[u8], format: RdfFormat) -> (triples: Vec<[String; 3]>)
    ensures
        all_written(triples@),
{
    let parsed = parse_terms(rdf, format);
    let mut terms: Vec<(RdfTerm, RdfTerm, RdfTerm)> = Vec::new();
    for quad in parsed {
        let (subject, predicate, object) = quad;
        terms.push((plain_term(subject), plain_term(predicate), plain_term(object)));
    }
    valid_triples(terms)
}

/// Encodes `triples` with the ids of `dictionary`. A triple is left out where
/// the dictionary lacks one of its terms.
pub fn encode(dictionary: &Dictionary, triples: &Vec<[String; 3]>) -> (ids: Vec<Triple>)
    ensures
        ids@ == encoding(dictionary@, triples@),
{
    let mut ids: Vec<Triple> = Vec::new();
    let len = triples.len();
    let mut j: usize = 0;
    while j < len
        invariant
            len == triples@.len(),
            j <= len,
            ids@ == encoding(dictionary@, triples@.take(j as int)),
        decreases len - j,
    {
        let triple = &triples[j];
        proof {
            assert(triples@.take(j + 1).drop_last() =~= triples@.take(j as int));
            assert(triples@.take(j + 1).last() == triples@[j as int]);
        }
        let subject = dictionary.get_subject_idx(triple[0].as_str());
        let predicate = dictionary.get_predicate_idx(triple[1].as_str());
        let object = dictionary.get_object_idx(triple[2].as_str());
        match (subject, predicate, object) {
            (Some(s), Some(p), Some(o)) => {
                ids.push([s, p, o]);
            },
            _ => {},
        }
        j += 1;
    }
    proof {
        assert(triples@.take(len as int) =~= triples@);
    }
    ids
}

/// The terms of `triples` at the position `index`, triple by triple.
fn position_terms(triples: &Vec<[String; 3]>, index: Index) -> (terms: Vec<String>)
    ensures
        term_views(terms@) == terms_at(triples@, index),
{
    let mut terms: Vec<String> = Vec::new();
    let len = triples.len();
    let mut j: usize = 0;
    while j < len
        invariant
            len == triples@.len(),
            j <= len,
            term_views(terms@) == terms_at(triples@, index).take(j as int),
        decreases len - j,
    {
        let triple = &triples[j];
        let ghost before = term_views(terms@);
        let term = match index {
            Index::Subject => triple[0].clone(),
            Index::Predicate => triple[1].clone(),
            Index::Object => triple[2].clone(),
        };
        terms.push(term);
        proof {
            assert(term_views(terms@) =~= before.push(term@));
            assert(terms_at(triples@, index).take(j + 1) =~= terms_at(triples@, index).take(
                j as int,
            ).push(term@));
        }
        j += 1;
    }
    proof {
        assert(terms_at(triples@, index).take(len as int) =~= terms_at(triples@, index));
    }
    terms
}

proof fn lemma_encoding_keeps_all(vocabulary: Vocabulary, triples: Seq<[String; 3]>)
    requires
        forall|index: Index, i: int|
            0 <= i < triples.len() ==> vocabulary.terms(index).contains(
                #[trigger] terms_at(triples, index)[i],
            ),
    ensures
        encoding(vocabulary, triples).len() == triples.len(),
        forall|i: int|
            0 <= i < triples.len() ==> encoded(vocabulary, triples[i]) == Some(
                #[trigger] encoding(vocabulary, triples)[i],
            ),
    decreases triples.len(),
{
    if triples.len() > 0 {
        let rest = triples.drop_last();
        assert forall|index: Index, i: int| 0 <= i < rest.len() implies vocabulary.terms(
            index,
        ).contains(#[trigger] terms_at(rest, index)[i]) by {
            assert(terms_at(rest, index)[i] == terms_at(triples, index)[i]);
        }
        lemma_encoding_keeps_all(vocabulary, rest);
        let last = triples.len() - 1;
        assert(vocabulary.terms(Index::Subject).contains(terms_at(triples, Index::Subject)[last]));
        assert(vocabulary.terms(Index::Predicate).contains(
            terms_at(triples, Index::Predicate)[last],
        ));
        assert(vocabulary.terms(Index::Object).contains(terms_at(triples, Index::Object)[last]));
    }
}

proof fn lemma_count_at_most(triples: Seq<Triple>, index: Index, ids: nat)
    requires
        forall|j: int| 0 <= j < triples.len() ==> index.component(#[trigger] triples[j]) < ids,
    ensures
        id_count(triples, index) <= ids,
    decreases triples.len(),
{
    if triples.len() > 0 {
        let rest = triples.drop_last();
        assert forall|j: int| 0 <= j < rest.len() implies index.component(#[trigger] rest[j])
            < ids by {
            assert(rest[j] == triples[j]);
        }
        lemma_count_at_most(rest, index, ids);
        assert(index.component(triples[triples.len() - 1]) < ids);
    }
}

proof fn lemma_encoding_spans_at(vocabulary: Vocabulary, triples: Seq<[String; 3]>, index: Index)
    requires
        describes_at(vocabulary, triples, index),
        encoding(vocabulary, triples).len() == triples.len(),
        forall|i: int|
            0 <= i < triples.len() ==> encoded(vocabulary, triples[i]) == Some(
                #[trigger] encoding(vocabulary, triples)[i],
            ),
    ensures
        spans_at(encoding(vocabulary, triples), vocabulary, index),
{
    let ids = encoding(vocabulary, triples);
    let terms = vocabulary.terms(index);
    let source = terms_at(triples, index);
    assert(vocabulary_of(terms, source));
    assert forall|j: int| 0 <= j < ids.len() implies index.component(#[trigger] ids[j])
        == terms.index_of(source[j]) && terms.contains(source[j]) by {
        assert(encoded(vocabulary, triples[j]) == Some(ids[j]));
        assert(source.contains(source[j]));
    }
    assert forall|j: int| 0 <= j < ids.len() implies index.component(#[trigger] ids[j])
        < terms.len() by {
        assert(terms.contains(source[j]));
    }
    lemma_count_at_most(ids, index, terms.len());
    assert forall|id: u64| id < terms.len() implies (#[trigger] group(ids, index, id)).len() > 0 by {
        lemma_id_of(terms, id as int);
        assert(source.contains(terms[id as int]));
        let j = choose|j: int| 0 <= j < source.len() && source[j] == terms[id as int];
        assert(index.component(ids[j]) == id);
        lemma_group_of_member(ids, index, j);
    }
    if terms.len() > 0 {
        let id = (terms.len() - 1) as u64;
        assert(group(ids, index, id).len() > 0);
        if id_count(ids, index) <= id {
            lemma_group_beyond_count(ids, index, id);
        }
    }
}

/// Encoding the triples of a source with the vocabulary of that source
/// leaves no triple out, and the ids of each position are those of the
/// vocabulary: every id leads a triple.
pub proof fn lemma_encoding_spans(vocabulary: Vocabulary, triples: Seq<[String; 3]>)
    requires
        describes(vocabulary, triples),
    ensures
        spans(encoding(vocabulary, triples), vocabulary),
        encoding(vocabulary, triples).len() == triples.len(),
        forall|i: int|
            0 <= i < triples.len() ==> encoded(vocabulary, triples[i]) == Some(
                #[trigger] encoding(vocabulary, triples)[i],
            ),
{
    assert forall|index: Index, i: int| 0 <= i < triples.len() implies vocabulary.terms(
        index,
    ).contains(#[trigger] terms_at(triples, index)[i]) by {
        match index {
            Index::Subject => assert(describes_at(vocabulary, triples, Index::Subject)),
            Index::Predicate => assert(describes_at(vocabulary, triples, Index::Predicate)),
            Index::Object => assert(describes_at(vocabulary, triples, Index::Object)),
        }
        assert(terms_at(triples, index).contains(terms_at(triples, index)[i]));
    }
    lemma_encoding_keeps_all(vocabulary, triples);
    lemma_encoding_spans_at(vocabulary, triples, Index::Subject);
    lemma_encoding_spans_at(vocabulary, triples, Index::Predicate);
    lemma_encoding_spans_at(vocabulary, triples, Index::Object);
}

/// A term that the source does not have at a position has no id there; a
/// term that it has there has an id, and the dictionary holds the term at
/// that id.
pub proof fn lemma_lookup(
    vocabulary: Vocabulary,
    triples: Seq<[String; 3]>,
    index: Index,
    term: Seq<char>,
)
    requires
        describes_at(vocabulary, triples, index),
    ensures
        match id_of(vocabulary.terms(index), term) {
            Some(id) => terms_at(triples, index).contains(term) && id < vocabulary.terms(index).len()
                && vocabulary.terms(index)[id as int] == term,
            None => !terms_at(triples, index).contains(term),
        },
{
}

/// Whether two vocabularies have the same terms at each position, in
/// whatever order and however often.
pub open spec fn same_terms(first: Vocabulary, second: Vocabulary) -> bool {
    forall|index: Index, term: Seq<char>|
        #[trigger] first.terms(index).contains(term) <==> second.terms(index).contains(term)
}

/// A dataset that is opened again has the dictionary that it was built with.
/// Where `built` is the vocabulary of a source whose terms can all be keys,
/// and `persisted` holds the terms of `built` in whatever order they come
/// back, a dictionary can be built of the persisted lists, and any such
/// dictionary, `reloaded`, is `built` again: every term has the id that it
/// was given when the dataset was built.
pub proof fn lemma_reload_keeps_ids(
    built: Vocabulary,
    triples: Seq<[String; 3]>,
    persisted: Vocabulary,
    reloaded: Vocabulary,
)
    requires
        describes(built, triples),
        all_keys(triples),
        same_terms(persisted, built),
        vocabulary_of(reloaded.subjects, persisted.subjects),
        vocabulary_of(reloaded.predicates, persisted.predicates),
        vocabulary_of(reloaded.objects, persisted.objects),
    ensures
        all_storable(persisted.subjects),
        all_storable(persisted.predicates),
        all_storable(persisted.objects),
        reloaded == built,
        forall|index: Index, term: Seq<char>|
            #[trigger] id_of(reloaded.terms(index), term) == id_of(built.terms(index), term),
{
    assert(describes_at(built, triples, Index::Subject));
    assert(describes_at(built, triples, Index::Predicate));
    assert(describes_at(built, triples, Index::Object));
    assert forall|term: Seq<char>|
        persisted.subjects.contains(term) <==> built.subjects.contains(term) by {
        assert(persisted.terms(Index::Subject).contains(term) <==> built.terms(
            Index::Subject,
        ).contains(term));
    }
    assert forall|term: Seq<char>|
        persisted.predicates.contains(term) <==> built.predicates.contains(term) by {
        assert(persisted.terms(Index::Predicate).contains(term) <==> built.terms(
            Index::Predicate,
        ).contains(term));
    }
    assert forall|term: Seq<char>|
        persisted.objects.contains(term) <==> built.objects.contains(term) by {
        assert(persisted.terms(Index::Object).contains(term) <==> built.terms(
            Index::Object,
        ).contains(term));
    }
    crate::order::lemma_vocabulary_unique(reloaded.subjects, built.subjects, built.subjects);
    crate::order::lemma_vocabulary_unique(reloaded.predicates, built.predicates, built.predicates);
    crate::order::lemma_vocabulary_unique(reloaded.objects, built.objects, built.objects);
    lemma_storable_members(persisted.subjects, terms_at(triples, Index::Subject));
    lemma_storable_members(persisted.predicates, terms_at(triples, Index::Predicate));
    lemma_storable_members(persisted.objects, terms_at(triples, Index::Object));
}

/// A dataset answers a pattern that binds nothing with every triple of its
/// source, each as often as the source has it. Where `vocabulary` is the
/// vocabulary of `triples`, and the indexes of `storage` hold their
/// encoding, a scan finds as many triples as there are, and the same ones.
pub proof fn lemma_dataset_scan<A: Query>(
    storage: Storage<A>,
    vocabulary: Vocabulary,
    triples: Seq<[String; 3]>,
)
    requires
        describes(vocabulary, triples),
        built_from(storage, encoding(vocabulary, triples)),
    ensures
        answer(storage, None, None, None) matches Ok(found) && found.len() == triples.len()
            && found.to_multiset() == encoding(vocabulary, triples).to_multiset(),
{
    let ids = encoding(vocabulary, triples);
    lemma_encoding_spans(vocabulary, triples);
    assert(spans_at(ids, vocabulary, Index::Subject));
    lemma_scan_answer(storage, ids);
    let found = answer(storage, None, None, None)->Ok_0;
    found.to_multiset_ensures();
    ids.to_multiset_ensures();
}

/// A dataset answers a pattern that binds a position with the encoded
/// triples of its source that match the pattern, in the order of the source,
/// where the id bound at the first bound position is an id of the
/// dictionary. An id beyond the dictionary leads no triple, and the index has
/// no chunk for it.
pub proof fn lemma_dataset_pattern<A: Query>(
    storage: Storage<A>,
    vocabulary: Vocabulary,
    triples: Seq<[String; 3]>,
    subject: Option<u64>,
    predicate: Option<u64>,
    object: Option<u64>,
)
    requires
        describes(vocabulary, triples),
        built_from(storage, encoding(vocabulary, triples)),
        selected(subject, predicate, object) is Some,
    ensures
        ({
            let (index, id) = selected(subject, predicate, object)->0;
            answer(storage, subject, predicate, object) == if id < vocabulary.terms(index).len() {
                Ok::<Seq<Triple>, ZarrDfError>(
                    matching(encoding(vocabulary, triples), subject, predicate, object),
                )
            } else {
                Err::<Seq<Triple>, ZarrDfError>(ZarrDfError::ChunkNotFound(id))
            }
        }),
{
    let ids = encoding(vocabulary, triples);
    let (index, id) = selected(subject, predicate, object)->0;
    lemma_encoding_spans(vocabulary, triples);
    match index {
        Index::Subject => assert(spans_at(ids, vocabulary, Index::Subject)),
        Index::Predicate => assert(spans_at(ids, vocabulary, Index::Predicate)),
        Index::Object => assert(spans_at(ids, vocabulary, Index::Object)),
    }
    lemma_bound_answer(storage, ids, subject, predicate, object);
    if id >= vocabulary.terms(index).len() {
        lemma_group_beyond_count(ids, index, id);
    }
}

/// What the dataset finds for the position `index` alone: the answer to the
/// pattern that binds `index` to `bound` and nothing else, and every triple
/// that it holds where nothing is bound there.
pub open spec fn found_by<A: Query>(
    storage: Storage<A>,
    index: Index,
    bound: Option<u64>,
) -> Result<Seq<Triple>, ZarrDfError> {
    match index {
        Index::Subject => answer(storage, bound, None, None),
        Index::Predicate => answer(storage, None, bound, None),
        Index::Object => answer(storage, None, None, bound),
    }
}

/// A pattern finds what each of its bound positions finds alone: where every
/// id that the pattern binds is an id of the dictionary, the pattern and
/// each of its positions alone are answered, and a triple is found by the
/// pattern as often as all three positions find it.
pub proof fn lemma_dataset_intersection<A: Query>(
    storage: Storage<A>,
    vocabulary: Vocabulary,
    triples: Seq<[String; 3]>,
    subject: Option<u64>,
    predicate: Option<u64>,
    object: Option<u64>,
)
    requires
        describes(vocabulary, triples),
        built_from(storage, encoding(vocabulary, triples)),
        subject matches Some(id) ==> id < vocabulary.subjects.len(),
        predicate matches Some(id) ==> id < vocabulary.predicates.len(),
        object matches Some(id) ==> id < vocabulary.objects.len(),
    ensures
        answer(storage, subject, predicate, object) is Ok,
        found_by(storage, Index::Subject, subject) is Ok,
        found_by(storage, Index::Predicate, predicate) is Ok,
        found_by(storage, Index::Object, object) is Ok,
        answer(storage, subject, predicate, object)->Ok_0.to_multiset() == found_by(
            storage,
            Index::Subject,
            subject,
        )->Ok_0.to_multiset().intersection_with(
            found_by(storage, Index::Predicate, predicate)->Ok_0.to_multiset(),
        ).intersection_with(found_by(storage, Index::Object, object)->Ok_0.to_multiset()),
{
    let ids = encoding(vocabulary, triples);
    lemma_dataset_scan(storage, vocabulary, triples);
    crate::query::lemma_matching_unbound(ids);
    let scanned = answer(storage, None, None, None)->Ok_0;
    if subject is Some {
        lemma_dataset_pattern(storage, vocabulary, triples, subject, None, None);
    }
    if predicate is Some {
        lemma_dataset_pattern(storage, vocabulary, triples, None, predicate, None);
    }
    if object is Some {
        lemma_dataset_pattern(storage, vocabulary, triples, None, None, object);
    }
    if selected(subject, predicate, object) is Some {
        lemma_dataset_pattern(storage, vocabulary, triples, subject, predicate, object);
    }
    crate::query::lemma_matching_intersection(ids, subject, predicate, object);
    // a position that binds nothing finds every triple, as a filter that keeps all does
    assert(scanned.to_multiset() == matching(ids, None, None, None).to_multiset());
}

/// Whether every term of `triples` can be a key of a dictionary.
pub open spec fn all_keys(triples: Seq<[String; 3]>) -> bool {
    &&& all_storable(terms_at(triples, Index::Subject))
    &&& all_storable(terms_at(triples, Index::Predicate))
    &&& all_storable(terms_at(triples, Index::Object))
}

impl Storage<IndexArray> {
    /// Builds a dataset of `triples`: the dictionary of their terms and the
    /// three indexes of their encoded triples. It fails where a term cannot
    /// be a key of the dictionary, and only there.
    pub fn from_triples(triples: &Vec<[String; 3]>) -> (result: Result<
        Storage<IndexArray>,
        ZarrDfError,
    >)
        ensures
            match result {
                Ok(storage) => {
                    &&& all_keys(triples@)
                    &&& describes(storage.dictionary@, triples@)
                    &&& spans(encoding(storage.dictionary@, triples@), storage.dictionary@)
                    &&& built_from(storage, encoding(storage.dictionary@, triples@))
                    &&& laid_out_as(storage, encoding(storage.dictionary@, triples@))
                    &&& encoding(storage.dictionary@, triples@).len() == triples@.len()
                    &&& forall|i: int|
                        0 <= i < triples@.len() ==> encoded(storage.dictionary@, triples@[i])
                            == Some(#[trigger] encoding(storage.dictionary@, triples@)[i])
                },
                Err(e) => e is DictionaryCreation && !all_keys(triples@),
            },
    {
        let subjects = position_terms(triples, Index::Subject);
        let predicates = position_terms(triples, Index::Predicate);
        let objects = position_terms(triples, Index::Object);
        let dictionary = match Dictionary::new(subjects, predicates, objects) {
            Ok(dictionary) => dictionary,
            Err(e) => {
                return Err(e);
            },
        };
        proof {
            lemma_encoding_spans(dictionary@, triples@);
        }
        let ids = encode(&dictionary, triples);
        let subject = match write_index(&ids, Index::Subject) {
            Ok(array) => array,
            Err(e) => {
                return Err(e);
            },
        };
        let predicate = match write_index(&ids, Index::Predicate) {
            Ok(array) => array,
            Err(e) => {
                return Err(e);
            },
        };
        let object = match write_index(&ids, Index::Object) {
            Ok(array) => array,
            Err(e) => {
                return Err(e);
            },
        };
        let storage = Storage {
            dictionary,
            subject: Some(subject),
            predicate: Some(predicate),
            object: Some(object),
        };
        Ok(storage)
    }

    /// Builds a dataset of the source text `rdf`, which was read from
    /// `rdf_path` and is parsed in the serialization that the extension of
    /// `rdf_path` selects. A path whose extension selects none, or that has
    /// no extension, fails before anything is read or built. The dataset is that of the triples that
    /// the parser reads, those left out that have an empty term; it cannot be
    /// built where one of their terms holds a character of code 0.
    pub fn from_rdf_and_store(rdf_path: &str, rdf: &[u8]) -> (result: Result<
        Storage<IndexArray>,
        ZarrDfError,
    >)
        ensures
            match format_of(rdf_path@) {
                None => result matches Err(ZarrDfError::UnknownFormat(name)) && name@
                    == unknown_name(rdf_path@),
                Some(_) => exists|triples: Seq<[String; 3]>|
                    #![trigger all_written(triples)]
                    all_written(triples) && match result {
                        Ok(storage) => {
                            &&& all_keys(triples)
                            &&& describes(storage.dictionary@, triples)
                            &&& spans(encoding(storage.dictionary@, triples), storage.dictionary@)
                            &&& built_from(storage, encoding(storage.dictionary@, triples))
                            &&& laid_out_as(storage, encoding(storage.dictionary@, triples))
                            &&& encoding(storage.dictionary@, triples).len() == triples.len()
                        },
                        Err(e) => e is DictionaryCreation && !all_keys(triples),
                    },
            },
    {
        let format = match RdfFormat::from_path(rdf_path) {
            Ok(format) => format,
            Err(e) => {
                return Err(e);
            },
        };
        let triples = read_rdf(rdf, format);
        Storage::from_triples(&triples)
    }
}

/// The terms that a persisted attribute lists, or `None` where the attribute
/// is missing or no list of strings.
pub open spec fn listed(attribute: Option<&serde_json::Value>) -> Option<Seq<Seq<char>>> {
    match attribute {
        Some(value) => if value_is_terms(*value) {
            Some(value_terms(*value))
        } else {
            None
        },
        None => None,
    }
}

/// The terms of a persisted attribute, in ascending order.
fn listed_terms(attribute: Option<&serde_json::Value>) -> (terms: Option<Vec<String>>)
    ensures
        match terms {
            Some(terms) => listed(attribute) matches Some(source) && forall|term: Seq<char>|
                term_views(terms@).contains(term) <==> source.contains(term),
            None => listed(attribute) is None,
        },
{
    broadcast use vstd::seq_lib::to_multiset_contains;

    match attribute {
        Some(value) => match value_to_rdf(value) {
            Some(terms) => {
                proof {
                    let source = value_terms(*value);
                    assert forall|term: Seq<char>|
                        term_views(terms@).contains(term) <==> source.contains(term) by {
                        assert(term_views(terms@).to_multiset().count(term)
                            == source.to_multiset().count(term));
                    }
                }
                Some(terms)
            },
            None => None,
        },
        None => None,
    }
}

impl<A: Query> Storage<A> {
    /// Puts a persisted dataset together again: its three opened arrays, and
    /// the dictionary of the three term lists that were persisted as the
    /// attributes `subject`, `predicate` and `object`. A list that is missing
    /// or is no list of strings fails with the error of its position, the
    /// subjects first.
    pub fn from_zarr(
        subject: A,
        predicate: A,
        object: A,
        subjects: Option<&serde_json::Value>,
        predicates: Option<&serde_json::Value>,
        objects: Option<&serde_json::Value>,
    ) -> (result: Result<Storage<A>, ZarrDfError>)
        ensures
            match (listed(subjects), listed(predicates), listed(objects)) {
                (None, _, _) => result matches Err(ZarrDfError::SubjectsNotInMetadata),
                (Some(_), None, _) => result matches Err(ZarrDfError::PredicatesNotInMetadata),
                (Some(_), Some(_), None) => result matches Err(ZarrDfError::ObjectsNotInMetadata),
                (Some(s), Some(p), Some(o)) => match result {
                    Ok(storage) => {
                        &&& storage.subject == Some(subject)
                        &&& storage.predicate == Some(predicate)
                        &&& storage.object == Some(object)
                        &&& vocabulary_of(storage.dictionary@.subjects, s)
                        &&& vocabulary_of(storage.dictionary@.predicates, p)
                        &&& vocabulary_of(storage.dictionary@.objects, o)
                    },
                    Err(e) => e is DictionaryCreation && !(all_storable(s) && all_storable(p)
                        && all_storable(o)),
                },
            },
    {
        let subject_terms = match listed_terms(subjects) {
            Some(terms) => terms,
            None => {
                return Err(ZarrDfError::SubjectsNotInMetadata);
            },
        };
        let predicate_terms = match listed_terms(predicates) {
            Some(terms) => terms,
            None => {
                return Err(ZarrDfError::PredicatesNotInMetadata);
            },
        };
        let object_terms = match listed_terms(objects) {
            Some(terms) => terms,
            None => {
                return Err(ZarrDfError::ObjectsNotInMetadata);
            },
        };
        let ghost s = term_views(subject_terms@);
        let ghost p = term_views(predicate_terms@);
        let ghost o = term_views(object_terms@);
        proof {
            lemma_storable_members(s, listed(subjects)->0);
            lemma_storable_members(p, listed(predicates)->0);
            lemma_storable_members(o, listed(objects)->0);
        }
        match Dictionary::new(subject_terms, predicate_terms, object_terms) {
            Ok(dictionary) => Ok(
                Storage {
                    dictionary,
                    subject: Some(subject),
                    predicate: Some(predicate),
                    object: Some(object),
                },
            ),
            Err(e) => Err(e),
        }
    }
}

/// Whether all terms of a list can be keys depends on its members alone.
proof fn lemma_storable_members(first: Seq<Seq<char>>, second: Seq<Seq<char>>)
    requires
        forall|term: Seq<char>| first.contains(term) <==> second.contains(term),
    ensures
        all_storable(first) == all_storable(second),
{
    if all_storable(first) {
        assert forall|i: int| 0 <= i < second.len() implies crate::dictionary::storable(
            #[trigger] second[i],
        ) by {
            assert(second.contains(second[i]));
            let w = choose|w: int| 0 <= w < first.len() && first[w] == second[i];
            assert(crate::dictionary::storable(first[w]));
        }
    }
    if all_storable(second) {
        assert forall|i: int| 0 <= i < first.len() implies crate::dictionary::storable(
            #[trigger] first[i],
        ) by {
            assert(first.contains(first[i]));
            let w = choose|w: int| 0 <= w < second.len() && second[w] == first[i];
            assert(crate::dictionary::storable(second[w]));
        }
    }
}

} // verus!
