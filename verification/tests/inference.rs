use spargebra::SparqlParser;
use trillian::inference::{inference_branches, rewrite};
use trillian::sparql::algebra::{PathExpr as Ppe, Pattern, Query, Triple};
use trillian::sparql::reader::read_query;

const TYPE_PATTERN: &str = "SELECT ?s WHERE { ?s <http://www.w3.org/1999/02/22-rdf-syntax-ns#type> <http://example.org/Person> }";

fn parsed(query_str: &str) -> Query {
    let query = SparqlParser::new().parse_query(query_str).unwrap();
    read_query(&query.to_sse()).unwrap()
}

/// The rewritten algebra as text, with the operators in capital letters.
fn rewrite_query(query_str: &str) -> String {
    let rewritten = match parsed(query_str) {
        Query::Select(pattern) => rewrite(pattern),
        Query::Ask(pattern) => rewrite(pattern),
        Query::Other => unreachable!(),
    };
    format!("{rewritten:?}")
        .replace("Union(", "UNION(")
        .replace("Distinct(", "DISTINCT(")
}

/// The parsed BGP of a single-pattern query.
fn bgp_of(query_str: &str) -> Vec<Triple> {
    match parsed(query_str) {
        Query::Select(Pattern::Project(_, inner)) => match *inner {
            Pattern::Bgp(patterns) => patterns,
            other => panic!("expected a Bgp, got {other:?}"),
        },
        _ => unreachable!(),
    }
}

#[test]
fn subclasof_rule_expands_type_pattern() {
    let rewritten = rewrite_query(TYPE_PATTERN);
    assert!(
        rewritten.contains("UNION"),
        "expected UNION in rewritten query, got: {rewritten}"
    );
    assert!(
        rewritten.contains("http://www.w3.org/2000/01/rdf-schema#subClassOf"),
        "expected subClassOf reference, got: {rewritten}"
    );
}

#[test]
fn subproperty_rewrites_non_type_pattern() {
    let rewritten = rewrite_query("SELECT ?s WHERE { ?s <http://example.org/knows> ?o }");
    assert!(
        rewritten.contains("subPropertyOf"),
        "expected subPropertyOf rewrite, got: {rewritten}"
    );
}

#[test]
fn domain_rule_expands() {
    let rewritten = rewrite_query(TYPE_PATTERN);
    assert!(
        rewritten.contains("http://www.w3.org/2000/01/rdf-schema#domain"),
        "expected domain reference, got: {rewritten}"
    );
}

#[test]
fn range_rule_expands() {
    let rewritten = rewrite_query(TYPE_PATTERN);
    assert!(
        rewritten.contains("http://www.w3.org/2000/01/rdf-schema#range"),
        "expected range reference, got: {rewritten}"
    );
}

#[test]
fn preserves_non_type_patterns() {
    let rewritten = rewrite_query(
        "SELECT ?s ?name WHERE { ?s <http://www.w3.org/1999/02/22-rdf-syntax-ns#type> <http://example.org/Person> . ?s <http://example.org/name> ?name }",
    );
    assert!(
        rewritten.contains("http://example.org/name"),
        "expected original pattern to survive, got: {rewritten}"
    );
}

#[test]
fn rewritten_bgp_is_deduplicated() {
    let rewritten = rewrite_query(TYPE_PATTERN);
    assert!(
        rewritten.contains("DISTINCT"),
        "expected the rewritten BGP to be deduplicated, got: {rewritten}"
    );
}

/// Three rules fire on an `rdf:type` pattern, one on anything else.
#[test]
fn branch_count_per_pattern() {
    assert_eq!(inference_branches(&bgp_of(TYPE_PATTERN), &mut 0).len(), 3);
    let plain = bgp_of("SELECT ?s WHERE { ?s <http://example.org/knows> ?o }");
    assert_eq!(inference_branches(&plain, &mut 0).len(), 1);
}

/// Every branch joins its schema path first, so an empty lookup can
/// short-circuit before the data patterns are read.
#[test]
fn every_branch_leads_with_its_path() {
    for branch in inference_branches(&bgp_of(TYPE_PATTERN), &mut 0) {
        match branch.into_pattern() {
            Pattern::Join(left, _) => assert!(matches!(*left, Pattern::Path(..))),
            other => panic!("expected a Join, got {other:?}"),
        }
    }
}

/// The transitive rules are closures, not single hops.
#[test]
fn transitive_rules_are_closures() {
    let branches = inference_branches(&bgp_of(TYPE_PATTERN), &mut 0);
    assert!(matches!(branches[0].path, Ppe::OneOrMore(_)));
    for branch in &branches[1..] {
        let Ppe::Sequence(head, tail) = &branch.path else {
            panic!("expected a sequence path")
        };
        assert!(matches!(**tail, Ppe::ZeroOrMore(_)));
        let Ppe::Sequence(chain, _) = &**head else {
            panic!("expected a nested sequence")
        };
        assert!(matches!(**chain, Ppe::ZeroOrMore(_)));
    }
}
