//! Terms as strings, and term lists as JSON values.

use vstd::prelude::*;
use vstd::string::*;

use crate::order::ascending;
use crate::order::sorted;
use crate::order::term_views;

verus! {

/// A term of `oxrdf`, as a parser hands it out.
#[verifier::external_type_specification]
#[verifier::external_body]
pub struct ExOxTerm(oxrdf::Term);

/// A JSON value of `serde_json`, the form in which the store keeps an
/// attribute.
#[verifier::external_type_specification]
#[verifier::external_body]
pub struct ExValue(serde_json::Value);

/// A literal: its lexical form alone, or with the IRI of its datatype, or
/// with its language tag.
pub enum Literal {
    Simple(String),
    Typed(String, String),
    LanguageTagged(String, String),
}

/// A subject, predicate or object as the source gives it: a node named by an
/// IRI, a blank node with its label, or a literal.
pub enum RdfTerm {
    NamedNode(String),
    BlankNode(String),
    Literal(Literal),
}

/// The string under which the dictionary knows `term`.
pub open spec fn serialized(term: RdfTerm) -> Seq<char> {
    match term {
        RdfTerm::NamedNode(iri) => "<"@ + iri@ + ">"@,
        RdfTerm::BlankNode(label) => "_:_:"@ + label@,
        RdfTerm::Literal(Literal::Simple(value)) => value@,
        RdfTerm::Literal(Literal::Typed(value, datatype)) => "\""@ + value@ + "\"^^<"@ + datatype@
            + ">"@,
        RdfTerm::Literal(Literal::LanguageTagged(value, language)) => "\""@ + value@ + "\"@"@
            + language@,
    }
}

/// Takes a term of `oxrdf` apart: `NamedNode::into_string` gives the IRI,
/// `BlankNode::into_string` the label, and `Literal::destruct` the lexical
/// form with the datatype or the language tag, never with both.
#[verifier::external_body]
pub(crate) fn plain_term(term: oxrdf::Term) -> RdfTerm {
    match term {
        oxrdf::Term::NamedNode(node) => RdfTerm::NamedNode(node.into_string()),
        oxrdf::Term::BlankNode(node) => RdfTerm::BlankNode(node.into_string()),
        oxrdf::Term::Literal(literal) => RdfTerm::Literal(
            match literal.destruct() {
                (value, None, None) => Literal::Simple(value),
                (value, Some(datatype), _) => Literal::Typed(value, datatype.into_string()),
                (value, None, Some(language)) => Literal::LanguageTagged(value, language),
            },
        ),
    }
}

/// Writes `term` as the string under which the dictionary knows it: an IRI
/// between angle brackets, a blank node behind `_:_:`, a simple literal as
/// its lexical form, and another literal as its quoted lexical form followed
/// by `^^` and the datatype between angle brackets, or by `@` and the
/// language tag.
pub fn serialize_term(term: RdfTerm) -> (string: String)
    ensures
        string@ == serialized(term),
{
    match term {
        RdfTerm::NamedNode(iri) => {
            let mut string = String::from_str("<");
            string.append(iri.as_str());
            string.append(">");
            string
        },
        RdfTerm::BlankNode(label) => {
            let mut string = String::from_str("_:_:");
            string.append(label.as_str());
            string
        },
        RdfTerm::Literal(Literal::Simple(value)) => value,
        RdfTerm::Literal(Literal::Typed(value, datatype)) => {
            let mut string = String::from_str("\"");
            string.append(value.as_str());
            string.append("\"^^<");
            string.append(datatype.as_str());
            string.append(">");
            string
        },
        RdfTerm::Literal(Literal::LanguageTagged(value, language)) => {
            let mut string = String::from_str("\"");
            string.append(value.as_str());
            string.append("\"@");
            string.append(language.as_str());
            string
        },
    }
}

/// Whether a JSON value is an array whose elements are all strings.
pub uninterp spec fn value_is_terms(value: serde_json::Value) -> bool;

/// The strings of a JSON value that is an array of strings, in its order.
pub uninterp spec fn value_terms(value: serde_json::Value) -> Seq<Seq<char>>;

/// `serde_json::Value::from` on a vector of strings: the JSON array of these
/// strings, in their order.
#[verifier::external_body]
pub fn rdf_to_value(terms: Vec<String>) -> (value: serde_json::Value)
    ensures
        value_is_terms(value),
        value_terms(value) == term_views(terms@),
{
    serde_json::Value::from(terms)
}

/// `serde_json::Value::as_array` and, on each element, `Value::as_str`: the
/// strings of a JSON array of strings, and `None` for any other value.
#[verifier::external_body]
fn value_strings(value: &serde_json::Value) -> (strings: Option<Vec<String>>)
    ensures
        match strings {
            Some(strings) => value_is_terms(*value) && term_views(strings@) == value_terms(*value),
            None => !value_is_terms(*value),
        },
{
    value.as_array()?.iter().map(|term| term.as_str().map(|term| term.to_string())).collect()
}

/// The terms that a persisted list holds, in ascending order whatever order
/// they were persisted in; `None` where the value is no list of strings.
pub fn value_to_rdf(value: &serde_json::Value) -> (terms: Option<Vec<String>>)
    ensures
        match terms {
            Some(terms) => {
                &&& value_is_terms(*value)
                &&& ascending(term_views(terms@))
                &&& term_views(terms@).to_multiset() == value_terms(*value).to_multiset()
            },
            None => !value_is_terms(*value),
        },
{
    match value_strings(value) {
        Some(terms) => Some(sorted(&terms)),
        None => None,
    }
}

} // verus!
