use zarrdf::query::BasicGraphPattern;
use zarrdf::storage::Storage;

const RDF: &str = "resources/input.ttl";
const INPUT: &str = "@prefix ex: <http://example.org/> .
@prefix xsd: <http://www.w3.org/2001/XMLSchema#> .

ex:a ex:name \"Alice\" ;
     ex:birthdate \"1990-05-02\"^^xsd:date ;
     ex:knows ex:b .
ex:b ex:name \"Bob\" ;
     ex:knows ex:c .
ex:c ex:name \"Carol\" .
";

#[test]
fn test_triples() -> Result<(), zarrdf::error::ZarrDfError> {
    let storage = Storage::from_rdf_and_store(RDF, INPUT.as_bytes())?;
    let triples = storage.triples_matching(None, None, None)?;
    assert_eq!(triples.len(), 6);
    Ok(())
}
