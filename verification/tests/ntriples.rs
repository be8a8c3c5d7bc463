use trillian::hypertrie::export::{parse_triple_line, serialize_term};
use trillian::hypertrie::TermType;

#[test]
fn parses_simple_iri_triple() {
    let line = "<http://example.org/s> <http://example.org/p> <http://example.org/o> .";
    let t = parse_triple_line(line).unwrap();
    assert_eq!(t.subject.value, "http://example.org/s");
    assert_eq!(t.predicate.value, "http://example.org/p");
    assert_eq!(t.object.value, "http://example.org/o");
    assert!(matches!(t.object.typ, TermType::Iri));
}

#[test]
fn parses_literal_with_spaces() {
    let line = r#"<http://example.org/s> <http://example.org/p> "hello world" ."#;
    let t = parse_triple_line(line).unwrap();
    assert_eq!(t.object.value, "hello world");
    assert!(matches!(
        t.object.typ,
        TermType::Literal {
            datatype: None,
            lang: None
        }
    ));
}

#[test]
fn parses_literal_with_language_tag() {
    let line = r#"<http://example.org/s> <http://example.org/p> "hello"@en ."#;
    let t = parse_triple_line(line).unwrap();
    assert_eq!(t.object.value, "hello");
    assert!(matches!(
        t.object.typ,
        TermType::Literal {
            datatype: None,
            lang: Some(_)
        }
    ));
}

#[test]
fn parses_literal_with_datatype() {
    let line = r#"<http://example.org/s> <http://example.org/p> "30"^^<http://www.w3.org/2001/XMLSchema#integer> ."#;
    let t = parse_triple_line(line).unwrap();
    assert_eq!(t.object.value, "30");
    assert!(matches!(
        t.object.typ,
        TermType::Literal {
            datatype: Some(_),
            lang: None
        }
    ));
}

#[test]
fn parses_escaped_quotes() {
    let line = r#"<http://example.org/s> <http://example.org/p> "say \"hello\"" ."#;
    let t = parse_triple_line(line).unwrap();
    assert_eq!(t.object.value, r#"say "hello""#);
}

#[test]
fn parses_non_ascii_literals_verbatim() {
    // Byte-wise parsing reinterpreted each UTF-8 byte as a Latin-1
    // codepoint, so every non-ASCII literal came back mangled.
    for lit in ["café", "日本語", "naïve", "Grüße", "emoji 🎉", "Ωμέγα"] {
        let line = format!("<http://example.org/s> <http://example.org/p> \"{lit}\" .");
        let t = parse_triple_line(&line).expect("must parse");
        assert_eq!(t.object.value, lit, "literal must survive verbatim");
    }
}

#[test]
fn parses_escapes_next_to_non_ascii() {
    // The escape branch also advanced by bytes, so a multi-byte char right
    // after an escape used to desynchronize the scan.
    let line = r#"<http://example.org/s> <http://example.org/p> "sagt \"Grüße\"\nüber" ."#;
    let t = parse_triple_line(line).unwrap();
    assert_eq!(t.object.value, "sagt \"Grüße\"\nüber");
}

#[test]
fn parses_the_full_escape_set() {
    let line = r#"<http://example.org/s> <http://example.org/p> "q\" a\' b\\ n\n r\r t\t b\b f\f u\u00e9 U\U0001F389" ."#;
    let t = parse_triple_line(line).unwrap();
    assert_eq!(
        t.object.value,
        "q\" a' b\\ n\n r\r t\t b\u{8} f\u{c} u\u{e9} U\u{1F389}"
    );
}

#[test]
fn non_ascii_literal_round_trips_through_serialization() {
    let line = "<http://example.org/s> <http://example.org/p> \"Grüße 🎉\tende\" .";
    let t = parse_triple_line(line).unwrap();
    let out = serialize_term(&t.object.value, &t.object.typ);
    let back = parse_triple_line(&format!(
        "<http://example.org/s> <http://example.org/p> {out} ."
    ))
    .unwrap();
    assert_eq!(back.object.value, t.object.value);
}

#[test]
fn rejects_a_truncated_escape() {
    let line = r#"<http://example.org/s> <http://example.org/p> "bad \u00" ."#;
    assert!(parse_triple_line(line).is_none());
}

#[test]
fn parses_blank_nodes() {
    // Object blank node.
    let t = parse_triple_line("<http://example.org/s> <http://example.org/p> _:b0 .")
        .expect("triple with blank-node object must parse");
    assert_eq!(t.object.typ, TermType::BlankNode);
    assert_eq!(t.object.value, "b0"); // without _: prefix

    // Subject blank node + round-trip through serialization.
    let t2 = parse_triple_line("_:n1 <http://example.org/p> <http://example.org/o> .")
        .expect("triple with blank-node subject must parse");
    assert_eq!(t2.subject.typ, TermType::BlankNode);
    assert_eq!(serialize_term(&t2.subject.value, &t2.subject.typ), "_:n1");
}
