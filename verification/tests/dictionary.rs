use trillian::hypertrie::{Dictionary, TermType};

const XSD_STRING: &str = "http://www.w3.org/2001/XMLSchema#string";

/// Same lexical value but different types -> different IDs.
#[test]
fn distinct_terms_for_same_lexical_value() {
    let mut d = Dictionary::new();
    let i_int = d.insert_with_type(
        "25",
        TermType::literal_datatype("http://www.w3.org/2001/XMLSchema#integer".to_string()),
    );
    let i_str = d.insert_with_type("25", TermType::literal_datatype(XSD_STRING.to_string()));
    let i_iri = d.insert_with_type("25", TermType::Iri);
    let i_plain = d.insert_with_type("25", TermType::literal_plain());

    assert_ne!(i_int, i_str, "integer != string");
    assert_ne!(i_int, i_iri, "integer != IRI");
    assert_ne!(i_str, i_iri, "string != IRI");
    // plain literal and explicit xsd:string are identical per RDF 1.1
    assert_eq!(i_str, i_plain, "plain literal == xsd:string");
}

/// `resolve` returns the bare lexical value (without the type prefix), and
/// `lookup_term` finds exactly the matching typed entry.
#[test]
fn resolve_strips_prefix_and_lookup_is_typed() {
    let mut d = Dictionary::new();
    let dt = "http://www.w3.org/2001/XMLSchema#integer";
    let id = d.insert_with_type("25", TermType::literal_datatype(dt.to_string()));
    d.insert_with_type("25", TermType::Iri);

    assert_eq!(d.resolve(id).as_deref(), Some("25"));
    assert_eq!(
        d.lookup_term("25", &TermType::literal_datatype(dt.to_string())),
        Some(id)
    );
    assert_ne!(d.lookup_iri("25"), Some(id));
    assert_eq!(
        d.lookup_term(
            "25",
            &TermType::literal_datatype("http://www.w3.org/2001/XMLSchema#double".to_string())
        ),
        None
    );
}

/// A lexical value with an embedded separator byte stays intact.
#[test]
fn value_containing_separator_byte_roundtrips() {
    let mut d = Dictionary::new();
    let weird = "a\u{1}b";
    let id = d.insert_with_type(weird, TermType::literal_plain());
    assert_eq!(d.resolve(id).as_deref(), Some(weird));
    assert_eq!(d.lookup_term(weird, &TermType::literal_plain()), Some(id));
}

#[test]
fn namespace_folding_roundtrip() {
    let mut d = Dictionary::new();
    let q = "http://www.wikidata.org/entity/Q42";
    let p = "http://www.wikidata.org/prop/direct/P31";
    let other = "http://example.org/x";
    let iq = d.insert(q);
    let ip = d.insert(p);
    let io = d.insert(other);
    // Full IRIs come back unchanged (unfolded).
    assert_eq!(d.resolve(iq).as_deref(), Some(q));
    assert_eq!(d.resolve(ip).as_deref(), Some(p));
    assert_eq!(d.resolve(io).as_deref(), Some(other));
    // Lookup via the full IRI finds the folded key.
    assert_eq!(d.lookup_iri(q), Some(iq));
    assert_eq!(d.lookup_iri(p), Some(ip));
    // The folded key is indeed shorter than the full IRI.
    assert!(d.raw_key(iq).unwrap().len() < q.len());
    // Typed literal with an XSD datatype: the datatype is folded + unfolded.
    let dt = "http://www.w3.org/2001/XMLSchema#integer";
    let il = d.insert_with_type("25", TermType::literal_datatype(dt.to_string()));
    assert_eq!(d.resolve(il).as_deref(), Some("25"));
    match d.resolve_type(il) {
        Some(TermType::Literal {
            datatype: Some(g), ..
        }) => assert_eq!(g, dt),
        other => panic!("expected typed literal, {other:?}"),
    }
}

/// A known term keeps its identifier, a new one gets the next, and none changes.
#[test]
fn one_identifier_per_term() {
    let lang = || TermType::literal_lang("en".to_string());
    let both = || TermType::Literal {
        datatype: Some("http://ex/d".to_string()),
        lang: Some("en".to_string()),
    };
    let mut d = Dictionary::new();
    assert_eq!(d.insert_with_type("a", TermType::Iri), 0);
    assert_eq!(d.insert_with_type("a", lang()), 1);
    assert_eq!(d.insert_with_type("a", TermType::Iri), 0);
    // With a language the datatype is irrelevant.
    assert_eq!(d.insert_with_type("a", both()), 1);
    assert_eq!(d.len(), 2);
    assert_eq!(d.insert_with_type("b", TermType::Iri), 2);
    assert_eq!(d.len(), 3);
    assert_eq!(d.lookup_term("a", &TermType::Iri), Some(0));
    assert_eq!(d.lookup_term("a", &lang()), Some(1));
    assert_eq!(d.lookup_term("b", &TermType::Iri), Some(2));
    assert_eq!(d.resolve_type(1), Some(lang()));
}
