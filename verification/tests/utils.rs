use zarrdf::utils::rdf_to_value;
use zarrdf::utils::serialize_term;
use zarrdf::utils::value_to_rdf;
use zarrdf::utils::Literal;
use zarrdf::utils::RdfTerm;

#[test]
fn a_named_node_is_written_between_angle_brackets() {
    let term = RdfTerm::NamedNode("http://example.org/a".to_string());
    assert_eq!(serialize_term(term), "<http://example.org/a>");
}

#[test]
fn a_blank_node_is_written_behind_its_prefix() {
    let term = RdfTerm::BlankNode("b0".to_string());
    assert_eq!(serialize_term(term), "_:_:b0");
}

#[test]
fn a_simple_literal_is_its_lexical_form() {
    let term = RdfTerm::Literal(Literal::Simple("Alice".to_string()));
    assert_eq!(serialize_term(term), "Alice");
    let term = RdfTerm::Literal(Literal::Simple(String::new()));
    assert_eq!(serialize_term(term), "");
}

#[test]
fn a_typed_literal_carries_its_datatype() {
    let term = RdfTerm::Literal(Literal::Typed(
        "1990-05-02".to_string(),
        "http://www.w3.org/2001/XMLSchema#date".to_string(),
    ));
    assert_eq!(serialize_term(term), "\"1990-05-02\"^^<http://www.w3.org/2001/XMLSchema#date>");
}

#[test]
fn a_language_tagged_literal_carries_its_tag() {
    let term = RdfTerm::Literal(Literal::LanguageTagged("chat".to_string(), "fr".to_string()));
    assert_eq!(serialize_term(term), "\"chat\"@fr");
}

#[test]
fn terms_become_a_json_array_of_strings() {
    let value = rdf_to_value(vec!["b".to_string(), "a".to_string()]);
    let expected = serde_json::Value::Array(vec![
        serde_json::Value::String("b".to_string()),
        serde_json::Value::String("a".to_string()),
    ]);
    assert_eq!(value, expected);
    assert_eq!(rdf_to_value(Vec::new()), serde_json::Value::Array(Vec::new()));
}

#[test]
fn a_json_array_of_strings_is_listed_in_ascending_order() {
    let value = serde_json::Value::Array(vec![
        serde_json::Value::String("pear".to_string()),
        serde_json::Value::String("apple".to_string()),
        serde_json::Value::String("fig".to_string()),
        serde_json::Value::String("apple".to_string()),
    ]);
    assert_eq!(value_to_rdf(&value), Some(vec![
        "apple".to_string(),
        "apple".to_string(),
        "fig".to_string(),
        "pear".to_string(),
    ]));
    assert_eq!(value_to_rdf(&serde_json::Value::Array(Vec::new())), Some(Vec::new()));
}

#[test]
fn another_json_value_lists_nothing() {
    assert_eq!(value_to_rdf(&serde_json::Value::Null), None);
    assert_eq!(value_to_rdf(&serde_json::Value::String("a".to_string())), None);
    let mixed = serde_json::Value::Array(vec![
        serde_json::Value::String("a".to_string()),
        serde_json::Value::Bool(true),
    ]);
    assert_eq!(value_to_rdf(&mixed), None);
}
