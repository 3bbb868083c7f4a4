use zarrdf::dictionary::Dictionary;
use zarrdf::error::ZarrDfError;
use zarrdf::order::vocabulary;
use zarrdf::utils::rdf_to_value;
use zarrdf::utils::value_to_rdf;

fn strings(terms: &[&str]) -> Vec<String> {
    terms.iter().map(|term| term.to_string()).collect()
}

#[test]
fn ids_count_the_distinct_terms_in_ascending_order() {
    let dictionary = Dictionary::new(
        strings(&["pear", "apple", "pear", "fig", "apple"]),
        strings(&["z", "y"]),
        strings(&["one"]),
    )
    .unwrap();
    assert_eq!(dictionary.subjects(), vec!["apple", "fig", "pear"]);
    assert_eq!(dictionary.predicates(), vec!["y", "z"]);
    assert_eq!(dictionary.objects(), vec!["one"]);
    assert_eq!(dictionary.get_subject_idx("apple"), Some(0));
    assert_eq!(dictionary.get_subject_idx("fig"), Some(1));
    assert_eq!(dictionary.get_subject_idx("pear"), Some(2));
    assert_eq!(dictionary.get_predicate_idx("y"), Some(0));
    assert_eq!(dictionary.get_predicate_idx("z"), Some(1));
    assert_eq!(dictionary.get_object_idx("one"), Some(0));
}

#[test]
fn each_position_has_its_own_ids() {
    let dictionary =
        Dictionary::new(strings(&["a", "b"]), strings(&["b"]), strings(&["c", "a", "b"])).unwrap();
    assert_eq!(dictionary.get_subject_idx("b"), Some(1));
    assert_eq!(dictionary.get_predicate_idx("b"), Some(0));
    assert_eq!(dictionary.get_object_idx("b"), Some(1));
    assert_eq!(dictionary.get_predicate_idx("a"), None);
    assert_eq!(dictionary.get_subject_idx("c"), None);
}

#[test]
fn terms_are_ordered_by_their_bytes() {
    let dictionary = Dictionary::new(
        strings(&["b", "a", "B", "é", "ab", "z", "\u{1F600}", "\u{FFFD}"]),
        strings(&["p"]),
        strings(&["o"]),
    )
    .unwrap();
    assert_eq!(
        dictionary.subjects(),
        vec!["B", "a", "ab", "b", "z", "é", "\u{FFFD}", "\u{1F600}"]
    );
    assert_eq!(dictionary.get_subject_idx("é"), Some(5));
    assert_eq!(dictionary.get_subject_idx("\u{1F600}"), Some(7));
}

#[test]
fn a_term_that_is_no_key_has_no_id() {
    let dictionary =
        Dictionary::new(strings(&["apple", "pear"]), strings(&["p"]), strings(&["o"])).unwrap();
    assert_eq!(dictionary.get_subject_idx("fig"), None);
    assert_eq!(dictionary.get_subject_idx("appl"), None);
    assert_eq!(dictionary.get_subject_idx("apples"), None);
    assert_eq!(dictionary.get_subject_idx(""), None);
    assert_eq!(dictionary.get_subject_idx("aaa"), None);
    assert_eq!(dictionary.get_subject_idx("zzz"), None);
    assert_eq!(dictionary.get_subject_idx("apple\0"), None);
    assert_eq!(dictionary.get_object_idx("p"), None);
}

#[test]
fn lookups_in_a_large_dictionary() {
    let terms: Vec<String> = (0..1000).map(|i| format!("<http://example.org/{i:04}>")).collect();
    let mut shuffled = terms.clone();
    shuffled.reverse();
    let dictionary = Dictionary::new(shuffled, strings(&["p"]), strings(&["o"])).unwrap();
    for (id, term) in terms.iter().enumerate() {
        assert_eq!(dictionary.get_subject_idx(term), Some(id as u64));
    }
    assert_eq!(dictionary.get_subject_idx("<http://example.org/1000>"), None);
    assert_eq!(dictionary.subjects(), terms);
}

#[test]
fn a_position_without_terms_has_no_ids() {
    let dictionary = Dictionary::new(Vec::new(), Vec::new(), Vec::new()).unwrap();
    assert_eq!(dictionary.subjects(), Vec::<String>::new());
    assert_eq!(dictionary.predicates(), Vec::<String>::new());
    assert_eq!(dictionary.objects(), Vec::<String>::new());
    assert_eq!(dictionary.get_subject_idx("a"), None);
    assert_eq!(dictionary.get_predicate_idx("a"), None);
    assert_eq!(dictionary.get_object_idx(""), None);
}

#[test]
fn an_empty_term_cannot_be_a_key() {
    let result = Dictionary::new(strings(&["a", ""]), strings(&["p"]), strings(&["o"]));
    assert!(matches!(result, Err(ZarrDfError::DictionaryCreation(_))));
    let result = Dictionary::new(strings(&["a"]), strings(&["p"]), strings(&[""]));
    assert!(matches!(result, Err(ZarrDfError::DictionaryCreation(_))));
}

#[test]
fn a_term_with_a_zero_byte_cannot_be_a_key() {
    let result = Dictionary::new(strings(&["a"]), strings(&["p\0q"]), strings(&["o"]));
    assert!(matches!(result, Err(ZarrDfError::DictionaryCreation(_))));
}

#[test]
fn a_dictionary_built_of_its_own_lists_keeps_every_id() {
    let subjects = strings(&["delta", "alpha", "charlie", "bravo", "alpha"]);
    let predicates = strings(&["knows", "name"]);
    let objects = strings(&["\"x\"", "<http://example.org/a>", "_:_:b0"]);
    let built = Dictionary::new(subjects.clone(), predicates.clone(), objects.clone()).unwrap();
    let reloaded =
        Dictionary::new(built.subjects(), built.predicates(), built.objects()).unwrap();
    for term in &subjects {
        assert_eq!(reloaded.get_subject_idx(term), built.get_subject_idx(term));
    }
    for term in &predicates {
        assert_eq!(reloaded.get_predicate_idx(term), built.get_predicate_idx(term));
    }
    for term in &objects {
        assert_eq!(reloaded.get_object_idx(term), built.get_object_idx(term));
    }
    assert_eq!(reloaded.subjects(), built.subjects());
}

#[test]
fn persisted_lists_give_the_same_ids_whatever_their_order() {
    let built =
        Dictionary::new(strings(&["c", "a", "b"]), strings(&["q", "p"]), strings(&["o"])).unwrap();
    let mut subjects = built.subjects();
    subjects.reverse();
    let value = rdf_to_value(subjects);
    let listed = value_to_rdf(&value).unwrap();
    assert_eq!(listed, vec!["a", "b", "c"]);
    let reloaded = Dictionary::new(listed, built.predicates(), built.objects()).unwrap();
    for term in ["a", "b", "c", "d"] {
        assert_eq!(reloaded.get_subject_idx(term), built.get_subject_idx(term));
    }
}

#[test]
fn vocabulary_sorts_and_drops_repeats() {
    assert_eq!(vocabulary(strings(&["b", "a", "b", "c", "a", "a"])), vec!["a", "b", "c"]);
    assert_eq!(vocabulary(strings(&["x"])), vec!["x"]);
    assert_eq!(vocabulary(Vec::new()), Vec::<String>::new());
    assert_eq!(vocabulary(strings(&["", "a", ""])), vec!["", "a"]);
}
