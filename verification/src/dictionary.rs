//! The term dictionary: for each position of a triple, the terms of that
//! position and their dense ids, kept in a front-coded string set.

use vstd::prelude::*;
use vstd::string::*;
use vstd::utf8::*;

use crate::error::ZarrDfError;
use crate::index::Index;
use crate::order::bytes_lt;
use crate::order::strictly_ascending;
use crate::order::term_views;
use crate::order::vocabulary;
use crate::order::vocabulary_of;

verus! {

/// The front-coded ordered string set of `fcsd`.
#[verifier::external_type_specification]
#[verifier::external_body]
pub struct ExSet(fcsd::Set);

/// The keys that a set holds, in the order of their ids.
pub uninterp spec fn set_keys(set: fcsd::Set) -> Seq<Seq<u8>>;

/// The UTF-8 encodings of `terms`.
pub open spec fn key_bytes(terms: Seq<String>) -> Seq<Seq<u8>> {
    Seq::new(terms.len(), |i: int| encode_utf8(terms[i]@))
}

/// Whether the key at `i` can be added after those before it: it holds no
/// zero byte and comes after its predecessor, the first after the empty key.
pub open spec fn admits(keys: Seq<Seq<u8>>, i: int) -> bool {
    &&& !keys[i].contains(0u8)
    &&& bytes_lt(
        if i == 0 {
            Seq::<u8>::empty()
        } else {
            keys[i - 1]
        },
        keys[i],
    )
}

/// Whether a set can be built of `keys` in this order: each can be added
/// after those before it.
pub open spec fn accepted(keys: Seq<Seq<u8>>) -> bool {
    forall|i: int| 0 <= i < keys.len() ==> #[trigger] admits(keys, i)
}

/// `fcsd::Set::new`: builds the set of `terms`, whose ids are the positions
/// in `terms`. It adds the keys one by one and fails at the first that holds
/// a zero byte or does not come after its predecessor. Without any key the
/// build panics, so there must be one.
#[verifier::external_body]
fn build_set(terms: &Vec<String>) -> (result: Result<fcsd::Set, anyhow::Error>)
    requires
        terms@.len() > 0,
    ensures
        match result {
            Ok(set) => set_keys(set) == key_bytes(terms@) && accepted(key_bytes(terms@)),
            Err(_) => !accepted(key_bytes(terms@)),
        },
{
    fcsd::Set::new(terms)
}

/// `fcsd::Locator::run` on a fresh locator of `set`: the id of `term`, which
/// is the position of its bytes among the keys, or `None` where no key has
/// these bytes. The search reads the first bucket, so the set must hold a key.
#[verifier::external_body]
fn locate(set: &fcsd::Set, term: &str) -> (id: Option<usize>)
    requires
        set_keys(*set).len() > 0,
        accepted(set_keys(*set)),
    ensures
        match id {
            Some(id) => id < set_keys(*set).len() && set_keys(*set)[id as int] == term.spec_bytes(),
            None => !set_keys(*set).contains(term.spec_bytes()),
        },
{
    set.locator().run(term)
}

/// `fcsd::Set::iter`, which yields every key with its id, in ascending order
/// of the ids: the keys alone, in that order.
#[verifier::external_body]
fn set_entries(set: &fcsd::Set) -> (keys: Vec<Vec<u8>>)
    ensures
        keys@.len() == set_keys(*set).len(),
        forall|i: int| 0 <= i < keys@.len() ==> (#[trigger] keys@[i])@ == set_keys(*set)[i],
{
    set.iter().map(|(_, key)| key).collect()
}

/// `String::from_utf8` of the standard library: the string that `bytes`
/// encode, or `None` where they are no valid UTF-8.
#[verifier::external_body]
fn string_from_utf8(bytes: Vec<u8>) -> (string: Option<String>)
    ensures
        match string {
            Some(string) => valid_utf8(bytes@) && string@ == decode_utf8(bytes@),
            None => !valid_utf8(bytes@),
        },
{
    String::from_utf8(bytes).ok()
}

/// The terms of the three positions, each list in the order of its ids.
pub struct Vocabulary {
    pub subjects: Seq<Seq<char>>,
    pub predicates: Seq<Seq<char>>,
    pub objects: Seq<Seq<char>>,
}

impl Vocabulary {
    /// The terms of the position `index`.
    pub open spec fn terms(self, index: Index) -> Seq<Seq<char>> {
        match index {
            Index::Subject => self.subjects,
            Index::Predicate => self.predicates,
            Index::Object => self.objects,
        }
    }
}

/// Whether a term can be a key of a dictionary: it is not empty and holds
/// no character of code 0.
pub open spec fn storable(term: Seq<char>) -> bool {
    term.len() > 0 && !term.contains('\0')
}

/// The encoding of a character holds a zero byte only where the character
/// has the code 0.
proof fn lemma_scalar_zero_byte(c: char)
    ensures
        encode_scalar(c as u32).contains(0u8) <==> c == '\0',
        encode_scalar(c as u32).len() > 0,
{
    let scalar = c as u32;
    let bytes = encode_scalar(scalar);
    char_is_scalar(c);
    assert(scalar <= 0x7F ==> (((scalar & 0x7F) as u8 == 0u8) <==> scalar == 0)) by (bit_vector);
    assert((0xC0u8 | ((scalar >> 6) & 0x1F) as u8) != 0u8) by (bit_vector);
    assert((0xE0u8 | ((scalar >> 12) & 0x0F) as u8) != 0u8) by (bit_vector);
    assert((0xF0u8 | ((scalar >> 18) & 0x7) as u8) != 0u8) by (bit_vector);
    assert((0x80u8 | (scalar & 0x3F) as u8) != 0u8) by (bit_vector);
    assert((0x80u8 | ((scalar >> 6) & 0x3F) as u8) != 0u8) by (bit_vector);
    assert((0x80u8 | ((scalar >> 12) & 0x3F) as u8) != 0u8) by (bit_vector);
    if bytes.contains(0u8) {
        let i = choose|i: int| 0 <= i < bytes.len() && bytes[i] == 0u8;
        assert(scalar == 0);
    }
    if c == '\0' {
        assert(bytes[0] == 0u8);
    }
}

/// The encoding of a term is empty only where the term is, and holds a zero
/// byte only where the term holds a character of code 0.
pub proof fn lemma_storable_bytes(term: Seq<char>)
    ensures
        encode_utf8(term).len() > 0 <==> term.len() > 0,
        encode_utf8(term).contains(0u8) <==> term.contains('\0'),
    decreases term.len(),
{
    if term.len() > 0 {
        let first = encode_scalar(term[0] as u32);
        let rest = encode_utf8(term.drop_first());
        lemma_scalar_zero_byte(term[0]);
        lemma_storable_bytes(term.drop_first());
        vstd::seq_lib::lemma_seq_concat_contains_all_elements(first, rest, 0u8);
        if term.contains('\0') {
            let i = choose|i: int| 0 <= i < term.len() && term[i] == '\0';
            if i > 0 {
                assert(term.drop_first()[i - 1] == '\0');
            }
        }
        if term.drop_first().contains('\0') {
            let i = choose|i: int| 0 <= i < term.drop_first().len() && term.drop_first()[i] == '\0';
            assert(term[i + 1] == '\0');
        }
        if term[0] == '\0' {
            assert(term.contains('\0'));
        }
    }
}

/// Whether every term of `terms` can be a key.
pub open spec fn all_storable(terms: Seq<Seq<char>>) -> bool {
    forall|i: int| 0 <= i < terms.len() ==> storable(#[trigger] terms[i])
}

/// The id of `term` among `terms`, or `None` where it is not among them.
pub open spec fn id_of(terms: Seq<Seq<char>>, term: Seq<char>) -> Option<u64> {
    if terms.contains(term) {
        Some(terms.index_of(term) as u64)
    } else {
        None
    }
}

/// In a list in strictly ascending order the id of a term is its position.
pub proof fn lemma_id_of(terms: Seq<Seq<char>>, i: int)
    requires
        strictly_ascending(terms),
        0 <= i < terms.len(),
    ensures
        terms.contains(terms[i]),
        terms.index_of(terms[i]) == i,
{
    assert(terms.contains(terms[i]));
    let j = terms.index_of(terms[i]);
    crate::order::lemma_strictly_ascending_distinct(terms, i, j);
}

/// The terms that a set stands for; no set stands for no term.
spec fn terms_of(set: Option<fcsd::Set>) -> Seq<Seq<char>> {
    match set {
        None => Seq::empty(),
        Some(set) => Seq::new(set_keys(set).len(), |i: int| decode_utf8(set_keys(set)[i])),
    }
}

/// Whether a set is one that a dictionary can hold: it has keys, they were
/// accepted when it was built, and each encodes a term.
spec fn sound(set: Option<fcsd::Set>) -> bool {
    match set {
        None => true,
        Some(set) => {
            &&& 0 < set_keys(set).len() <= usize::MAX
            &&& accepted(set_keys(set))
            &&& forall|i: int| 0 <= i < set_keys(set).len() ==> valid_utf8(#[trigger] set_keys(set)[i])
        },
    }
}

/// Three mappings, one per position of a triple, between the terms of that
/// position and the ids 0, 1, 2, ..., given in ascending order of the terms.
pub struct Dictionary {
    subjects: Option<fcsd::Set>,
    predicates: Option<fcsd::Set>,
    objects: Option<fcsd::Set>,
}

impl View for Dictionary {
    type V = Vocabulary;

    closed spec fn view(&self) -> Vocabulary {
        Vocabulary {
            subjects: terms_of(self.subjects),
            predicates: terms_of(self.predicates),
            objects: terms_of(self.objects),
        }
    }
}

proof fn lemma_accepted_ascending(set: fcsd::Set)
    requires
        sound(Some(set)),
    ensures
        strictly_ascending(terms_of(Some(set))),
{
    let keys = set_keys(set);
    let terms = terms_of(Some(set));
    assert forall|i: int, j: int| 0 <= i < j < terms.len() implies crate::order::term_lt(
        terms[i],
        terms[j],
    ) by {
        lemma_keys_ascending(keys, i, j);
        decode_utf8_encode_utf8(keys[i]);
        decode_utf8_encode_utf8(keys[j]);
    }
}

proof fn lemma_keys_ascending(keys: Seq<Seq<u8>>, i: int, j: int)
    requires
        accepted(keys),
        0 <= i < j < keys.len(),
    ensures
        bytes_lt(keys[i], keys[j]),
    decreases j - i,
{
    assert(admits(keys, j));
    if i + 1 < j {
        lemma_keys_ascending(keys, i, j - 1);
        crate::order::lemma_bytes_lt_transitive(keys[i], keys[j - 1], keys[j]);
    }
}

/// Builds the set of one position: `None` for no term at all.
fn term_set(terms: Vec<String>) -> (result: Result<Option<fcsd::Set>, ZarrDfError>)
    ensures
        match result {
            Ok(set) => {
                &&& sound(set)
                &&& terms_of(set).len() <= usize::MAX
                &&& vocabulary_of(terms_of(set), term_views(terms@))
                &&& all_storable(term_views(terms@))
            },
            Err(e) => e is DictionaryCreation && !all_storable(term_views(terms@)),
        },
{
    let ghost source = term_views(terms@);
    let distinct = vocabulary(terms);
    let ghost listed = term_views(distinct@);
    if distinct.len() == 0 {
        proof {
            assert(terms_of(None) =~= listed);
            assert forall|i: int| 0 <= i < source.len() implies storable(#[trigger] source[i]) by {
                assert(source.contains(source[i]));
                assert(listed.contains(source[i]));
            }
        }
        return Ok(None);
    }
    let ghost keys = key_bytes(distinct@);
    proof {
        // the keys come one after the other, so only a term that cannot be a key is refused
        assert forall|i: int| 0 <= i < keys.len() implies (storable(listed[i]) <==> #[trigger] admits(
            keys,
            i,
        )) by {
            lemma_storable_bytes(listed[i]);
            if i > 0 {
                assert(crate::order::term_lt(listed[i - 1], listed[i]));
            }
        }
        if all_storable(source) {
            assert forall|i: int| 0 <= i < keys.len() implies #[trigger] admits(keys, i) by {
                assert(listed.contains(listed[i]));
                assert(source.contains(listed[i]));
                let w = choose|w: int| 0 <= w < source.len() && source[w] == listed[i];
                assert(storable(source[w]));
            }
        }
        if accepted(keys) {
            assert forall|i: int| 0 <= i < source.len() implies storable(#[trigger] source[i]) by {
                assert(source.contains(source[i]));
                assert(listed.contains(source[i]));
                let w = choose|w: int| 0 <= w < listed.len() && listed[w] == source[i];
                assert(admits(keys, w));
            }
        }
    }
    match build_set(&distinct) {
        Ok(set) => {
            proof {
                assert forall|i: int| 0 <= i < set_keys(set).len() implies valid_utf8(
                    #[trigger] set_keys(set)[i],
                ) by {
                    encode_utf8_valid_utf8(distinct@[i]@);
                }
                assert(terms_of(Some(set)) =~= listed) by {
                    assert forall|i: int| 0 <= i < listed.len() implies terms_of(Some(set))[i]
                        == listed[i] by {
                        encode_utf8_decode_utf8(distinct@[i]@);
                    }
                }
            }
            Ok(Some(set))
        },
        Err(e) => Err(ZarrDfError::DictionaryCreation(e)),
    }
}

/// The id of `term` in `set`.
fn term_id(set: &Option<fcsd::Set>, term: &str) -> (id: Option<u64>)
    requires
        sound(*set),
    ensures
        id == id_of(terms_of(*set), term@),
        match id {
            Some(id) => id < terms_of(*set).len() && terms_of(*set)[id as int] == term@,
            None => !terms_of(*set).contains(term@),
        },
{
    match set {
        None => None,
        Some(set) => match locate(set, term) {
            Some(id) => {
                proof {
                    encode_utf8_decode_utf8(term@);
                    lemma_accepted_ascending(*set);
                    lemma_id_of(terms_of(Some(*set)), id as int);
                }
                Some(id as u64)
            },
            None => {
                proof {
                    let terms = terms_of(Some(*set));
                    if terms.contains(term@) {
                        let i = choose|i: int| 0 <= i < terms.len() && terms[i] == term@;
                        decode_utf8_encode_utf8(set_keys(*set)[i]);
                        assert(set_keys(*set)[i] == term.spec_bytes());
                    }
                }
                None
            },
        },
    }
}

/// The terms of `set`, in the order of their ids.
fn term_list(set: &Option<fcsd::Set>) -> (terms: Vec<String>)
    requires
        sound(*set),
    ensures
        term_views(terms@) == terms_of(*set),
{
    let mut terms: Vec<String> = Vec::new();
    match set {
        None => {
            assert(term_views(terms@) =~= terms_of(*set));
        },
        Some(set) => {
            let keys = set_entries(set);
            let ghost expected = terms_of(Some(*set));
            for key in it: keys
                invariant
                    it.seq().len() == set_keys(*set).len(),
                    forall|i: int| 0 <= i < it.seq().len() ==> (#[trigger] it.seq()[i])@ == set_keys(*set)[i],
                    sound(Some(*set)),
                    expected == terms_of(Some(*set)),
                    term_views(terms@) == expected.take(it.index() as int),
            {
                let ghost at = it.index() as int;
                let ghost before = term_views(terms@);
                assert(valid_utf8(set_keys(*set)[at]));
                match string_from_utf8(key) {
                    Some(term) => {
                        terms.push(term);
                        assert(term_views(terms@) =~= before.push(term@));
                        assert(expected.take(at + 1) =~= expected.take(at).push(expected[at]));
                    },
                    None => {},
                }
            }
            assert(expected.take(expected.len() as int) =~= expected);
        },
    }
    terms
}

impl Dictionary {
    #[verifier::type_invariant]
    spec fn well_formed(self) -> bool {
        sound(self.subjects) && sound(self.predicates) && sound(self.objects)
    }

    /// Builds the dictionary of the given terms. Each list may hold a term
    /// more than once and in any order: the ids of a position count its
    /// distinct terms in ascending order. The build fails where a term cannot
    /// be a key.
    pub fn new(subjects: Vec<String>, predicates: Vec<String>, objects: Vec<String>) -> (result:
        Result<Dictionary, ZarrDfError>)
        ensures
            match result {
                Ok(dictionary) => {
                    &&& vocabulary_of(dictionary@.subjects, term_views(subjects@))
                    &&& vocabulary_of(dictionary@.predicates, term_views(predicates@))
                    &&& vocabulary_of(dictionary@.objects, term_views(objects@))
                    &&& all_storable(term_views(subjects@))
                    &&& all_storable(term_views(predicates@))
                    &&& all_storable(term_views(objects@))
                    &&& dictionary@.subjects.len() <= usize::MAX
                    &&& dictionary@.predicates.len() <= usize::MAX
                    &&& dictionary@.objects.len() <= usize::MAX
                },
                Err(e) => e is DictionaryCreation && !(all_storable(term_views(subjects@))
                    && all_storable(term_views(predicates@)) && all_storable(term_views(objects@))),
            },
    {
        let subjects = match term_set(subjects) {
            Ok(set) => set,
            Err(e) => {
                return Err(e);
            },
        };
        let predicates = match term_set(predicates) {
            Ok(set) => set,
            Err(e) => {
                return Err(e);
            },
        };
        let objects = match term_set(objects) {
            Ok(set) => set,
            Err(e) => {
                return Err(e);
            },
        };
        Ok(Dictionary { subjects, predicates, objects })
    }

    /// The subject terms, in the order of their ids.
    pub fn subjects(&self) -> (terms: Vec<String>)
        ensures
            term_views(terms@) == self@.subjects,
    {
        proof {
            use_type_invariant(self);
        }
        term_list(&self.subjects)
    }

    /// The predicate terms, in the order of their ids.
    pub fn predicates(&self) -> (terms: Vec<String>)
        ensures
            term_views(terms@) == self@.predicates,
    {
        proof {
            use_type_invariant(self);
        }
        term_list(&self.predicates)
    }

    /// The object terms, in the order of their ids.
    pub fn objects(&self) -> (terms: Vec<String>)
        ensures
            term_views(terms@) == self@.objects,
    {
        proof {
            use_type_invariant(self);
        }
        term_list(&self.objects)
    }

    /// The id of the subject `subject`, or `None` where the dictionary has no
    /// such subject.
    pub fn get_subject_idx(&self, subject: &str) -> (id: Option<u64>)
        ensures
            id == id_of(self@.subjects, subject@),
            match id {
                Some(id) => id < self@.subjects.len() && self@.subjects[id as int] == subject@,
                None => !self@.subjects.contains(subject@),
            },
    {
        proof {
            use_type_invariant(self);
        }
        term_id(&self.subjects, subject)
    }

    /// The id of the predicate `predicate`, or `None` where the dictionary
    /// has no such predicate.
    pub fn get_predicate_idx(&self, predicate: &str) -> (id: Option<u64>)
        ensures
            id == id_of(self@.predicates, predicate@),
            match id {
                Some(id) => id < self@.predicates.len() && self@.predicates[id as int] == predicate@,
                None => !self@.predicates.contains(predicate@),
            },
    {
        proof {
            use_type_invariant(self);
        }
        term_id(&self.predicates, predicate)
    }

    /// The id of the object `object`, or `None` where the dictionary has no
    /// such object.
    pub fn get_object_idx(&self, object: &str) -> (id: Option<u64>)
        ensures
            id == id_of(self@.objects, object@),
            match id {
                Some(id) => id < self@.objects.len() && self@.objects[id as int] == object@,
                None => !self@.objects.contains(object@),
            },
    {
        proof {
            use_type_invariant(self);
        }
        term_id(&self.objects, object)
    }
}

} // verus!
