use trillian::hypertrie::turtle::{parse_turtle_str, MAX_NESTING};
use trillian::hypertrie::export::serialize_term;
use trillian::hypertrie::{parse_ntriples, TermType};

const RDF: &str = "http://www.w3.org/1999/02/22-rdf-syntax-ns#";
const XSD: &str = "http://www.w3.org/2001/XMLSchema#";

/// Triples as `subject|predicate|object` for order-independent comparison.
fn parse(ttl: &str) -> Vec<String> {
    parse_turtle_str(ttl)
        .unwrap_or_else(|e| panic!("parse failed: {e}\n---\n{ttl}"))
        .iter()
        .map(|t| {
            format!(
                "{}|{}|{}",
                t.subject.value, t.predicate.value, t.object.value
            )
        })
        .collect()
}

const PRE: &str = "@prefix ex: <http://example.org/> .\n";

#[test]
fn prefixed_names_and_a_keyword() {
    let got = parse(&format!("{PRE}ex:alice a ex:Person ."));
    assert_eq!(
        got,
        [
            "http://example.org/alice|http://www.w3.org/1999/02/22-rdf-syntax-ns#type|http://example.org/Person"
        ]
    );
}

#[test]
fn sparql_style_prefix_without_dot() {
    let got = parse("PREFIX ex: <http://example.org/>\nex:a ex:b ex:c .");
    assert_eq!(
        got,
        ["http://example.org/a|http://example.org/b|http://example.org/c"]
    );
}

#[test]
fn empty_prefix() {
    let got = parse("@prefix : <http://example.org/> .\n:a :b :c .");
    assert_eq!(
        got,
        ["http://example.org/a|http://example.org/b|http://example.org/c"]
    );
}

#[test]
fn a_prefix_label_must_start_with_a_letter() {
    let e = parse_turtle_str("@prefix _x: <http://example.org/> .\n_x:a _x:b _x:c .")
        .expect_err("'_' is not PN_CHARS_BASE");
    assert!(e.contains("illegal prefix label"), "got {e}");
}

#[test]
fn predicate_object_and_object_lists() {
    // `;` repeats the subject, `,` repeats subject and predicate.
    let got = parse(&format!("{PRE}ex:a ex:knows ex:b, ex:c ; ex:age 30 ."));
    assert_eq!(
        got,
        [
            "http://example.org/a|http://example.org/knows|http://example.org/b",
            "http://example.org/a|http://example.org/knows|http://example.org/c",
            "http://example.org/a|http://example.org/age|30",
        ]
    );
}

#[test]
fn trailing_semicolon_is_allowed() {
    let got = parse(&format!("{PRE}ex:a ex:b ex:c ; ."));
    assert_eq!(got.len(), 1);
}

#[test]
fn numeric_and_boolean_literals_get_their_datatype() {
    let ttl = format!("{PRE}ex:a ex:i 42 ; ex:d 3.14 ; ex:e 1.0e6 ; ex:n -7 ; ex:b true .");
    let ts = parse_turtle_str(&ttl).unwrap();
    let dt = |k: usize| match &ts[k].object.typ {
        TermType::Literal {
            datatype: Some(d), ..
        } => d.clone(),
        other => panic!("expected a typed literal, got {other:?}"),
    };
    assert_eq!(dt(0), format!("{XSD}integer"));
    assert_eq!(dt(1), format!("{XSD}decimal"));
    assert_eq!(dt(2), format!("{XSD}double"));
    assert_eq!(dt(3), format!("{XSD}integer"));
    assert_eq!(ts[3].object.value, "-7");
    assert_eq!(dt(4), format!("{XSD}boolean"));
}

#[test]
fn integer_followed_by_statement_dot() {
    // The dot after `42` ends the statement; it is not a decimal point.
    let got = parse(&format!("{PRE}ex:a ex:n 42.\nex:b ex:n 43 ."));
    assert_eq!(got.len(), 2);
    assert_eq!(got[0], "http://example.org/a|http://example.org/n|42");
}

#[test]
fn blank_node_property_list() {
    let ts = parse_turtle_str(&format!(
        "{PRE}ex:a ex:knows [ ex:name \"Bob\" ; ex:age 30 ] ."
    ))
    .unwrap();
    assert_eq!(ts.len(), 3);
    // The bnode is the object of ex:knows and the subject of the nested two.
    let outer = ts
        .iter()
        .find(|t| t.predicate.value.ends_with("knows"))
        .unwrap();
    assert_eq!(outer.object.typ, TermType::BlankNode);
    let nested: Vec<_> = ts
        .iter()
        .filter(|t| t.subject.value == outer.object.value)
        .collect();
    assert_eq!(nested.len(), 2);
}

#[test]
fn anonymous_blank_node() {
    let ts = parse_turtle_str(&format!("{PRE}ex:a ex:knows [] .")).unwrap();
    assert_eq!(ts.len(), 1);
    assert_eq!(ts[0].object.typ, TermType::BlankNode);
}

#[test]
fn blank_node_property_list_as_subject() {
    let ts = parse_turtle_str(&format!("{PRE}[ ex:name \"anon\" ] ex:age 1 .")).unwrap();
    assert_eq!(ts.len(), 2);
    assert_eq!(ts[0].subject.typ, TermType::BlankNode);
    assert_eq!(ts[0].subject.value, ts[1].subject.value);
}

#[test]
fn collection_expands_to_a_first_rest_chain() {
    let ts = parse_turtle_str(&format!("{PRE}ex:a ex:list ( ex:x ex:y ) .")).unwrap();
    // ex:list + 2x (first, rest) = 5 triples, ending in rdf:nil.
    assert_eq!(ts.len(), 5);
    let firsts: Vec<_> = ts
        .iter()
        .filter(|t| t.predicate.value == format!("{RDF}first"))
        .collect();
    assert_eq!(firsts.len(), 2);
    assert_eq!(firsts[0].object.value, "http://example.org/x");
    assert_eq!(firsts[1].object.value, "http://example.org/y");
    assert!(ts.iter().any(|t| t.object.value == format!("{RDF}nil")));
}

#[test]
fn empty_collection_is_nil() {
    let ts = parse_turtle_str(&format!("{PRE}ex:a ex:list () .")).unwrap();
    assert_eq!(ts.len(), 1);
    assert_eq!(ts[0].object.value, format!("{RDF}nil"));
}

#[test]
fn long_strings_and_quote_forms() {
    let ttl = format!(
        "{PRE}ex:a ex:s1 \"\"\"line1\nline2\"\"\" ; ex:s2 'single' ; ex:s3 '''tri\nple''' ."
    );
    let ts = parse_turtle_str(&ttl).unwrap();
    assert_eq!(ts[0].object.value, "line1\nline2");
    assert_eq!(ts[1].object.value, "single");
    assert_eq!(ts[2].object.value, "tri\nple");
}

#[test]
fn non_ascii_and_escapes_in_literals() {
    let ttl = format!("{PRE}ex:a ex:name \"Grüße 🎉\" ; ex:esc \"q\\\"\\n\\u00e9\" .");
    let ts = parse_turtle_str(&ttl).unwrap();
    assert_eq!(ts[0].object.value, "Grüße 🎉");
    assert_eq!(ts[1].object.value, "q\"\n\u{e9}");
}

#[test]
fn language_tags_and_explicit_datatypes() {
    let ttl = format!(
        "{PRE}ex:a ex:n \"hallo\"@de ; ex:m \"5\"^^<{XSD}integer> ; ex:o \"6\"^^ex:custom ."
    );
    let ts = parse_turtle_str(&ttl).unwrap();
    assert!(matches!(&ts[0].object.typ, TermType::Literal { lang: Some(l), .. } if l == "de"));
    assert!(
        matches!(&ts[1].object.typ, TermType::Literal { datatype: Some(d), .. } if *d == format!("{XSD}integer"))
    );
    assert!(
        matches!(&ts[2].object.typ, TermType::Literal { datatype: Some(d), .. } if d == "http://example.org/custom")
    );
}

#[test]
fn comments_are_skipped_but_not_inside_strings() {
    let ttl =
        format!("# leading comment\n{PRE}ex:a ex:b \"text # not a comment\" . # trailing\n");
    let ts = parse_turtle_str(&ttl).unwrap();
    assert_eq!(ts.len(), 1);
    assert_eq!(ts[0].object.value, "text # not a comment");
}

#[test]
fn statements_may_span_lines() {
    let got = parse(&format!("{PRE}ex:a\n  ex:knows\n    ex:b\n  .\n"));
    assert_eq!(got.len(), 1);
}

#[test]
fn base_resolves_relative_iris() {
    let ttl = "@base <http://example.org/dir/page> .\n<#frag> <p> <sub> .\n<//x> <q> </abs> .";
    let ts = parse_turtle_str(ttl).unwrap();
    assert_eq!(ts[0].subject.value, "http://example.org/dir/page#frag");
    assert_eq!(ts[0].predicate.value, "http://example.org/dir/p");
    assert_eq!(ts[0].object.value, "http://example.org/dir/sub");
    assert_eq!(ts[1].object.value, "http://example.org/abs");
}

#[test]
fn blank_node_labels_are_kept() {
    let ts = parse_turtle_str(&format!("{PRE}_:x ex:p _:y . _:x ex:q 1 .")).unwrap();
    assert_eq!(ts[0].subject.typ, TermType::BlankNode);
    assert_eq!(ts[0].subject.value, "x");
    assert_eq!(ts[0].object.value, "y");
    // The same label is the same node across statements.
    assert_eq!(ts[0].subject.value, ts[1].subject.value);
}

#[test]
fn a_generated_blank_node_cannot_be_hijacked_by_a_document_label() {
    // `_ttl1` is what `[ ... ]` mints here, and `_:_ttl1` is a legal label,
    // so the two must still end up as different nodes.
    let ts = parse_turtle_str(&format!(
        "{PRE}ex:a ex:b [ ex:c ex:d ] .\n_:_ttl1 ex:e ex:f ."
    ))
    .unwrap();
    let generated = &ts[0].subject.value;
    let written = &ts[2].subject.value;
    assert_eq!(ts[2].subject.typ, TermType::BlankNode);
    assert_ne!(generated, written);
}

#[test]
fn escaping_document_labels_stays_injective() {
    let ts = parse_turtle_str(&format!("{PRE}ex:a ex:b _:_x .\nex:a ex:c _:__x .")).unwrap();
    assert_ne!(ts[0].object.value, ts[1].object.value);
}

#[test]
fn a_name_may_contain_a_dot_but_not_end_with_one() {
    // The dot after `ex:c` ends the statement; the one in `ex:v1.2` does not.
    let got = parse(&format!("{PRE}ex:v1.2 ex:b ex:c.\nex:d ex:e _:x."));
    assert_eq!(
        got,
        [
            "http://example.org/v1.2|http://example.org/b|http://example.org/c",
            "http://example.org/d|http://example.org/e|x",
        ]
    );
}

#[test]
fn an_escaped_dot_may_end_a_local_name() {
    let got = parse(&format!("{PRE}ex:a ex:b ex:c\\.."));
    assert_eq!(
        got,
        ["http://example.org/a|http://example.org/b|http://example.org/c."]
    );
}

#[test]
fn a_multi_byte_char_at_a_keyword_boundary_is_an_error_not_a_panic() {
    // `basé`/`prefiä` put a multi-byte char across the `BASE`/`PREFIX`
    // comparison window; slicing there used to panic.
    for doc in [
        "basé",
        "prefiä",
        &format!("{PRE}basé:a ex:b ex:c ."),
        "🎉x ex:p ex:o .",
    ] {
        assert!(
            parse_turtle_str(doc).is_err(),
            "expected an error for {doc:?}"
        );
    }
}

#[test]
fn a_leading_bom_is_not_content() {
    let got = parse(&format!("\u{feff}{PRE}ex:a ex:b ex:c ."));
    assert_eq!(
        got,
        ["http://example.org/a|http://example.org/b|http://example.org/c"]
    );
}

#[test]
fn nesting_past_the_cap_is_an_error_not_a_stack_overflow() {
    for (open, close) in [("[ ex:p ", " ]"), ("( ", " )")] {
        let deep = format!(
            "{PRE}ex:a ex:b {}ex:end{} .",
            open.repeat(MAX_NESTING + 1),
            close.repeat(MAX_NESTING + 1)
        );
        let e = parse_turtle_str(&deep).unwrap_err();
        assert!(e.contains("nesting too deep"), "got {e}");
    }
}

#[test]
fn nesting_within_the_cap_still_parses() {
    let n = MAX_NESTING - 1;
    let deep = format!(
        "{PRE}ex:a ex:b {}ex:end{} .",
        "[ ex:p ".repeat(n),
        " ]".repeat(n)
    );
    assert_eq!(parse_turtle_str(&deep).unwrap().len(), n + 1);
}

#[test]
fn the_depth_counter_unwinds_between_siblings() {
    // Sequential (not nested) brackets must not accumulate depth.
    let one = "ex:a ex:b [ ex:p ex:q ] .\n".repeat(MAX_NESTING * 3);
    assert!(parse_turtle_str(&format!("{PRE}{one}")).is_ok());
    let lists = "ex:a ex:b ( ex:x ) .\n".repeat(MAX_NESTING * 3);
    assert!(parse_turtle_str(&format!("{PRE}{lists}")).is_ok());
}

#[test]
fn escaped_local_name() {
    let got = parse(&format!("{PRE}ex:a\\-b ex:p ex:c ."));
    assert_eq!(
        got[0],
        "http://example.org/a-b|http://example.org/p|http://example.org/c"
    );
}

#[test]
fn errors_carry_a_line_number() {
    let e = parse_turtle_str(
        "@prefix ex: <http://example.org/> .\nex:a ex:b ex:c\nex:d ex:e ex:f .",
    )
    .unwrap_err();
    assert!(e.starts_with("line "), "expected a line number, got {e}");
}

#[test]
fn unknown_prefix_is_an_error() {
    let e = parse_turtle_str("nope:a nope:b nope:c .").unwrap_err();
    assert!(e.contains("unknown prefix"), "got {e}");
}

#[test]
fn unterminated_string_is_an_error() {
    assert!(parse_turtle_str(&format!("{PRE}ex:a ex:b \"oops .")).is_err());
}

#[test]
fn a_number_has_one_of_three_forms() {
    let object = |n: &str| parse_turtle_str(&format!("{PRE}ex:a ex:b {n} .")).map(|ts| {
        assert_eq!(ts.len(), 1);
        let dt = match &ts[0].object.typ {
            TermType::Literal { datatype: Some(d), .. } => d.strip_prefix(XSD).unwrap().to_string(),
            other => panic!("expected a typed literal, got {other:?}"),
        };
        (ts[0].object.value.clone(), dt)
    });
    for (text, dt) in [
        ("7", "integer"),
        ("+7", "integer"),
        ("1.5", "decimal"),
        ("-.5", "decimal"),
        ("1e5", "double"),
        ("1.E5", "double"),
        ("1.5e-3", "double"),
        (".5E+3", "double"),
    ] {
        assert_eq!(object(text).unwrap(), (text.to_string(), dt.to_string()));
    }
    for text in ["1e", "1e .", "1E+", "1.5e-", "+e5", "e5", "+", ".", "1e5e6", "1.2.3"] {
        assert!(object(text).is_err(), "{text}");
    }
    let e = object("1e").unwrap_err();
    assert_eq!(e, "line 2: expected a digit in the exponent");
    // A dot that no fraction and no exponent follows ends the statement.
    let got = parse(&format!("{PRE}@prefix e: <http://e/> .\nex:a ex:b 1.e:x e:y 2."));
    assert_eq!(got, ["http://example.org/a|http://example.org/b|1", "http://e/x|http://e/y|2"]);
}

#[test]
fn turtle_reads_ntriples() {
    let nt = "<http://e/s> <http://e/p> \"a \\\"b\\\" \\n\"@en-GB .\n\
              _:b1 <http://e/p> \"\"^^<http://e/t> .\n\
              <http://e/s> <http://e/q> \"\\\\\" .\n";
    let lines = parse_ntriples(nt);
    let turtle = parse_turtle_str(nt).unwrap();
    assert_eq!(lines.len(), 3);
    assert_eq!(format!("{lines:?}"), format!("{turtle:?}"));
    assert_eq!(turtle[0].object.value, "a \"b\" \n");
    for t in &turtle {
        let text = |x: &trillian::hypertrie::ParsedTerm| serialize_term(&x.value, &x.typ);
        let line = format!("{} {} {} .", text(&t.subject), text(&t.predicate), text(&t.object));
        assert_eq!(format!("{:?}", parse_turtle_str(&line).unwrap()), format!("[{t:?}]"));
    }
}
