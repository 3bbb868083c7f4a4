use zarrdf::array::IndexArray;
use zarrdf::array::write_index;
use zarrdf::dictionary::Dictionary;
use zarrdf::error::ZarrDfError;
use zarrdf::index::Index;
use zarrdf::query::BasicGraphPattern;
use zarrdf::query::Query;
use zarrdf::rdf_format::RdfFormat;
use zarrdf::storage::encode;
use zarrdf::storage::read_rdf;
use zarrdf::storage::valid_triple;
use zarrdf::storage::valid_triples;
use zarrdf::storage::Storage;
use zarrdf::utils::rdf_to_value;
use zarrdf::utils::Literal;
use zarrdf::utils::RdfTerm;

const NTRIPLES: &str = "<http://example.org/b> <http://example.org/knows> <http://example.org/a> .
<http://example.org/a> <http://example.org/name> \"Alice\" .
<http://example.org/a> <http://example.org/name> \"Alice\"@en .
_:x <http://example.org/knows> <http://example.org/a> .
<http://example.org/a> <http://example.org/age> \"30\"^^<http://www.w3.org/2001/XMLSchema#integer> .
<http://example.org/b> <http://example.org/knows> <http://example.org/a> .
";

fn term_triples(triples: &[[&str; 3]]) -> Vec<[String; 3]> {
    triples.iter().map(|[s, p, o]| [s.to_string(), p.to_string(), o.to_string()]).collect()
}

#[test]
fn a_source_is_read_term_by_term() {
    let triples = read_rdf(NTRIPLES.as_bytes(), RdfFormat::NTriples);
    assert_eq!(
        triples,
        term_triples(&[
            ["<http://example.org/b>", "<http://example.org/knows>", "<http://example.org/a>"],
            ["<http://example.org/a>", "<http://example.org/name>", "Alice"],
            ["<http://example.org/a>", "<http://example.org/name>", "\"Alice\"@en"],
            ["_:_:x", "<http://example.org/knows>", "<http://example.org/a>"],
            [
                "<http://example.org/a>",
                "<http://example.org/age>",
                "\"30\"^^<http://www.w3.org/2001/XMLSchema#integer>"
            ],
            ["<http://example.org/b>", "<http://example.org/knows>", "<http://example.org/a>"],
        ])
    );
}

#[test]
fn a_triple_with_an_empty_term_is_left_out() {
    let source = "<http://example.org/a> <http://example.org/name> \"\" .
<http://example.org/a> <http://example.org/name> \"Alice\" .
";
    let triples = read_rdf(source.as_bytes(), RdfFormat::NTriples);
    assert_eq!(
        triples,
        term_triples(&[["<http://example.org/a>", "<http://example.org/name>", "Alice"]])
    );
    let subject = RdfTerm::NamedNode("s".to_string());
    let predicate = RdfTerm::NamedNode("p".to_string());
    let empty = RdfTerm::Literal(Literal::Simple(String::new()));
    assert_eq!(valid_triple(subject, predicate, empty), None);
    let subject = RdfTerm::NamedNode("s".to_string());
    let predicate = RdfTerm::NamedNode("p".to_string());
    let object = RdfTerm::Literal(Literal::LanguageTagged(String::new(), "en".to_string()));
    assert_eq!(
        valid_triple(subject, predicate, object),
        Some(["<s>".to_string(), "<p>".to_string(), "\"\"@en".to_string()])
    );
}

#[test]
fn the_serialization_decides_how_the_source_is_read() {
    let turtle = "@prefix ex: <http://example.org/> . ex:a ex:p ex:b , ex:c .";
    assert_eq!(read_rdf(turtle.as_bytes(), RdfFormat::Turtle).len(), 2);
    assert_eq!(read_rdf(turtle.as_bytes(), RdfFormat::NTriples).len(), 0);
    let quads = "<http://example.org/a> <http://example.org/p> <http://example.org/b> <http://example.org/g> .\n";
    assert_eq!(
        read_rdf(quads.as_bytes(), RdfFormat::NQuads),
        term_triples(&[["<http://example.org/a>", "<http://example.org/p>", "<http://example.org/b>"]])
    );
    let xml = "<?xml version=\"1.0\"?>
<rdf:RDF xmlns:rdf=\"http://www.w3.org/1999/02/22-rdf-syntax-ns#\" xmlns:ex=\"http://example.org/\">
  <rdf:Description rdf:about=\"http://example.org/a\"><ex:name>Alice</ex:name></rdf:Description>
</rdf:RDF>";
    assert_eq!(
        read_rdf(xml.as_bytes(), RdfFormat::RdfXml),
        term_triples(&[["<http://example.org/a>", "<http://example.org/name>", "Alice"]])
    );
    assert_eq!(read_rdf(b"", RdfFormat::TriG).len(), 0);
    assert_eq!(read_rdf(turtle.as_bytes(), RdfFormat::N3).len(), 2);
}

#[test]
fn triples_are_encoded_with_the_ids_of_their_terms() {
    let triples = term_triples(&[["b", "p", "x"], ["a", "q", "x"], ["b", "p", "y"]]);
    let dictionary = Dictionary::new(
        vec!["a".to_string(), "b".to_string()],
        vec!["p".to_string(), "q".to_string()],
        vec!["x".to_string(), "y".to_string()],
    )
    .unwrap();
    assert_eq!(encode(&dictionary, &triples), vec![[1, 0, 0], [0, 1, 0], [1, 0, 1]]);
}

#[test]
fn a_triple_with_an_unknown_term_is_not_encoded() {
    let triples = term_triples(&[["b", "p", "x"], ["c", "p", "x"], ["a", "p", "z"], ["a", "p", "x"]]);
    let dictionary = Dictionary::new(
        vec!["a".to_string(), "b".to_string()],
        vec!["p".to_string()],
        vec!["x".to_string()],
    )
    .unwrap();
    assert_eq!(encode(&dictionary, &triples), vec![[1, 0, 0], [0, 0, 0]]);
}

#[test]
fn a_dataset_is_built_of_term_triples() {
    let triples = term_triples(&[
        ["b", "knows", "a"],
        ["a", "name", "Alice"],
        ["a", "knows", "b"],
        ["b", "knows", "a"],
    ]);
    let storage = Storage::from_triples(&triples).unwrap();
    assert_eq!(storage.dictionary.subjects(), vec!["a", "b"]);
    assert_eq!(storage.dictionary.predicates(), vec!["knows", "name"]);
    assert_eq!(storage.dictionary.objects(), vec!["Alice", "a", "b"]);
    assert_eq!(
        storage.triples_matching(None, None, None).unwrap(),
        vec![[0, 1, 0], [0, 0, 2], [1, 0, 1], [1, 0, 1]]
    );
    let knows = storage.dictionary.get_predicate_idx("knows");
    let a = storage.dictionary.get_object_idx("a");
    assert_eq!(storage.triples_matching(None, knows, a).unwrap(), vec![[1, 0, 1], [1, 0, 1]]);
    assert_eq!(storage.subject.as_ref().unwrap().config().chunk_sizes, vec![2, 2]);
    assert_eq!(storage.predicate.as_ref().unwrap().config().chunk_sizes, vec![3, 1]);
    assert_eq!(storage.object.as_ref().unwrap().config().chunk_sizes, vec![1, 2, 1]);
    assert_eq!(storage.object.as_ref().unwrap().query(0).unwrap(), vec![0, 1]);
}

#[test]
fn a_dataset_of_nothing_answers_with_nothing() {
    let storage = Storage::from_triples(&Vec::new()).unwrap();
    assert_eq!(storage.triples_matching(None, None, None).unwrap(), Vec::<[u64; 3]>::new());
    assert!(matches!(
        storage.triples_matching(Some(0), None, None),
        Err(ZarrDfError::ChunkNotFound(0))
    ));
    assert_eq!(storage.dictionary.get_subject_idx("a"), None);
    let storage = Storage::from_rdf_and_store("empty.nt", b"").unwrap();
    assert_eq!(storage.triples_matching(None, None, None).unwrap().len(), 0);
}

#[test]
fn a_term_that_cannot_be_a_key_fails_the_build() {
    let triples = term_triples(&[["a", "p", "o"], ["a", "p", "null\0inside"]]);
    assert!(matches!(Storage::from_triples(&triples), Err(ZarrDfError::DictionaryCreation(_))));
    let triples = term_triples(&[["a", "", "o"]]);
    assert!(matches!(Storage::from_triples(&triples), Err(ZarrDfError::DictionaryCreation(_))));
}

#[test]
fn an_unknown_extension_fails_before_anything_is_read() {
    match Storage::from_rdf_and_store("resources/input.xyz", NTRIPLES.as_bytes()) {
        Err(ZarrDfError::UnknownFormat(name)) => assert_eq!(name, "xyz"),
        _ => panic!("the source was read"),
    }
    match Storage::from_rdf_and_store("input", b"\0\0 not a source") {
        Err(ZarrDfError::UnknownFormat(name)) => assert_eq!(name, "input"),
        _ => panic!("the source was read"),
    }
    match Storage::from_rdf_and_store("nt", NTRIPLES.as_bytes()) {
        Err(ZarrDfError::UnknownFormat(name)) => assert_eq!(name, "nt"),
        _ => panic!("the source was read"),
    }
}

#[test]
fn a_source_is_built_into_a_dataset() {
    let storage = Storage::from_rdf_and_store("people.nt", NTRIPLES.as_bytes()).unwrap();
    assert_eq!(storage.triples_matching(None, None, None).unwrap().len(), 6);
    assert_eq!(
        storage.dictionary.subjects(),
        vec!["<http://example.org/a>", "<http://example.org/b>", "_:_:x"]
    );
    let b = storage.dictionary.get_subject_idx("<http://example.org/b>");
    assert_eq!(b, Some(1));
    assert_eq!(storage.triples_matching(b, None, None).unwrap().len(), 2);
    assert_eq!(storage.dictionary.get_object_idx("\"Alice\"@en"), Some(1));
    assert_eq!(storage.dictionary.get_object_idx("\"Alice\"@fr"), None);
    assert_eq!(storage.dictionary.get_object_idx("<http://example.org/b>"), None);
}

fn reopened(
    built: &Storage<IndexArray>,
    ids: &Vec<[u64; 3]>,
    subjects: Option<&serde_json::Value>,
    predicates: Option<&serde_json::Value>,
    objects: Option<&serde_json::Value>,
) -> Result<Storage<IndexArray>, ZarrDfError> {
    assert_eq!(&built.triples_matching(None, None, None).unwrap().len(), &ids.len());
    Storage::from_zarr(
        write_index(ids, Index::Subject).unwrap(),
        write_index(ids, Index::Predicate).unwrap(),
        write_index(ids, Index::Object).unwrap(),
        subjects,
        predicates,
        objects,
    )
}

#[test]
fn a_dataset_that_is_opened_again_gives_the_same_ids_and_answers() {
    let built = Storage::from_rdf_and_store("people.nt", NTRIPLES.as_bytes()).unwrap();
    let ids = encode(&built.dictionary, &read_rdf(NTRIPLES.as_bytes(), RdfFormat::NTriples));
    let subjects = rdf_to_value(built.dictionary.subjects());
    let predicates = rdf_to_value(built.dictionary.predicates());
    let mut unordered = built.dictionary.objects();
    unordered.reverse();
    let objects = rdf_to_value(unordered);
    let again =
        reopened(&built, &ids, Some(&subjects), Some(&predicates), Some(&objects)).unwrap();
    for triple in read_rdf(NTRIPLES.as_bytes(), RdfFormat::NTriples) {
        assert_eq!(
            again.dictionary.get_subject_idx(&triple[0]),
            built.dictionary.get_subject_idx(&triple[0])
        );
        assert_eq!(
            again.dictionary.get_predicate_idx(&triple[1]),
            built.dictionary.get_predicate_idx(&triple[1])
        );
        assert_eq!(
            again.dictionary.get_object_idx(&triple[2]),
            built.dictionary.get_object_idx(&triple[2])
        );
    }
    assert_eq!(
        again.triples_matching(None, None, None).unwrap(),
        built.triples_matching(None, None, None).unwrap()
    );
    let a = again.dictionary.get_object_idx("<http://example.org/a>");
    assert_eq!(again.triples_matching(None, None, a).unwrap().len(), 3);
}

#[test]
fn a_missing_term_list_is_reported_by_its_position() {
    let built = Storage::from_rdf_and_store("people.nt", NTRIPLES.as_bytes()).unwrap();
    let ids = encode(&built.dictionary, &read_rdf(NTRIPLES.as_bytes(), RdfFormat::NTriples));
    let list = rdf_to_value(vec!["a".to_string()]);
    let number = serde_json::Value::from(3);
    assert!(matches!(
        reopened(&built, &ids, None, None, None),
        Err(ZarrDfError::SubjectsNotInMetadata)
    ));
    assert!(matches!(
        reopened(&built, &ids, Some(&number), Some(&list), Some(&list)),
        Err(ZarrDfError::SubjectsNotInMetadata)
    ));
    assert!(matches!(
        reopened(&built, &ids, Some(&list), None, None),
        Err(ZarrDfError::PredicatesNotInMetadata)
    ));
    assert!(matches!(
        reopened(&built, &ids, Some(&list), Some(&list), None),
        Err(ZarrDfError::ObjectsNotInMetadata)
    ));
    assert!(matches!(
        reopened(&built, &ids, Some(&list), Some(&list), Some(&number)),
        Err(ZarrDfError::ObjectsNotInMetadata)
    ));
    let unusable = rdf_to_value(vec![String::new()]);
    assert!(matches!(
        reopened(&built, &ids, Some(&list), Some(&unusable), Some(&list)),
        Err(ZarrDfError::DictionaryCreation(_))
    ));
    assert!(reopened(&built, &ids, Some(&list), Some(&list), Some(&list)).is_ok());
}

#[test]
fn what_cannot_be_read_is_passed_over() {
    let formats = [
        RdfFormat::NTriples,
        RdfFormat::Turtle,
        RdfFormat::RdfXml,
        RdfFormat::TriG,
        RdfFormat::N3,
        RdfFormat::NQuads,
    ];
    let sources: [&[u8]; 5] = [
        b"<not a source",
        b"\0\0\xff\xfe garbage . . .",
        b"<rdf:RDF><broken></rdf:RDF>",
        b"<http://example.org/a> <http://example.org/p> .\n@@@\n",
        b"{ [ } ] ( ) \"unterminated",
    ];
    for format in formats {
        for source in sources {
            assert_eq!(read_rdf(source, format).len(), 0);
        }
    }
    let mixed = "garbage here .
<http://example.org/a> <http://example.org/p> <http://example.org/b> .
more garbage
<http://example.org/a> <http://example.org/p> <http://example.org/c> .
";
    assert_eq!(
        read_rdf(mixed.as_bytes(), RdfFormat::NTriples),
        term_triples(&[
            ["<http://example.org/a>", "<http://example.org/p>", "<http://example.org/b>"],
            ["<http://example.org/a>", "<http://example.org/p>", "<http://example.org/c>"],
        ])
    );
}

#[test]
fn parsed_triples_are_written_in_their_order() {
    let node = |iri: &str| RdfTerm::NamedNode(iri.to_string());
    let simple = |value: &str| RdfTerm::Literal(Literal::Simple(value.to_string()));
    let parsed = vec![
        (node("b"), node("p"), simple("two")),
        (node("a"), node("p"), simple("")),
        (RdfTerm::BlankNode("x".to_string()), node("q"), node("a")),
        (node("b"), node("p"), simple("two")),
        (
            node("a"),
            node("q"),
            RdfTerm::Literal(Literal::Typed("1".to_string(), "int".to_string())),
        ),
    ];
    assert_eq!(
        valid_triples(parsed),
        term_triples(&[
            ["<b>", "<p>", "two"],
            ["_:_:x", "<q>", "<a>"],
            ["<b>", "<p>", "two"],
            ["<a>", "<q>", "\"1\"^^<int>"],
        ])
    );
    assert_eq!(valid_triples(Vec::new()), Vec::<[String; 3]>::new());
    assert_eq!(
        valid_triples(vec![(simple(""), node("p"), node("o"))]),
        Vec::<[String; 3]>::new()
    );
}

#[test]
fn every_array_of_a_dataset_has_a_row_for_each_triple() {
    let storage = Storage::from_rdf_and_store("people.nt", NTRIPLES.as_bytes()).unwrap();
    let arrays = [
        (storage.subject.as_ref().unwrap(), Index::Subject, 3),
        (storage.predicate.as_ref().unwrap(), Index::Predicate, 3),
        (storage.object.as_ref().unwrap(), Index::Object, 4),
    ];
    for (array, index, ids) in arrays {
        assert_eq!(array.config().shape, vec![6, 2]);
        assert_eq!(array.config().chunk_width, 2);
        assert_eq!(array.config().fill_value, 0);
        assert_eq!(array.config().index, index);
        assert_eq!(array.config().chunk_sizes.len(), ids);
        assert_eq!(array.config().chunk_sizes.iter().sum::<u64>(), 6);
        assert_eq!(array.elements().len(), 12);
    }
}
