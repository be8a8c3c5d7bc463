use serde_json::Value;
use spargebra::SparqlParser;
use trillian::hypertrie::{HybridEngine, TermType, TripleStore};
use trillian::sparql::algebra::Query;
use trillian::sparql::numbers::{NumberCall, NumberReply};
use trillian::sparql::reader::read_query;
use trillian::sparql::run;
use trillian::sparql::solve_laws::contains_extend;
use trillian::sparql::tables::Solutions;
use trillian::wal::Wal;

fn numbers(call: NumberCall) -> NumberReply {
    let of = |x: f64| NumberReply::Number(x.to_bits());
    match call {
        NumberCall::Parse(s) => match s.parse::<f64>() {
            Ok(n) => of(n),
            Err(_) => NumberReply::Nothing,
        },
        NumberCall::Plus(a, b) => of(f64::from_bits(a) + f64::from_bits(b)),
        NumberCall::Minus(a, b) => of(f64::from_bits(a) - f64::from_bits(b)),
        NumberCall::Times(a, b) => of(f64::from_bits(a) * f64::from_bits(b)),
        NumberCall::Divide(a, b) => of(f64::from_bits(a) / f64::from_bits(b)),
        NumberCall::Count(n) => of(n as f64),
        NumberCall::Text(n) => {
            let x = f64::from_bits(n);
            NumberReply::Text(if x.fract() == 0.0 && x.is_finite() {
                format!("{}", x as i64)
            } else {
                x.to_string()
            })
        }
    }
}

fn execute_sparql(store: &TripleStore, engine: &HybridEngine, q: &str) -> Result<String, String> {
    run::execute_sparql(store, engine, q, &numbers)
}

fn execute_sparql_bind(
    store: &mut TripleStore,
    engine: &HybridEngine,
    q: &str,
) -> Result<String, String> {
    run::execute_sparql_bind(store, engine, q, &numbers)
}

fn execute_sparql_infer(
    store: &TripleStore,
    engine: &HybridEngine,
    q: &str,
) -> Result<String, String> {
    run::execute_sparql_infer(store, engine, q, &numbers)
}

fn evaluate_select(
    store: &TripleStore,
    engine: &HybridEngine,
    q: &str,
) -> Result<Solutions, String> {
    run::select_rows(store, engine, q, false, &numbers)
}

fn execute_update(store: &mut TripleStore, update: &str, wal: Option<&mut Wal>) -> Result<(), String> {
    match wal {
        Some(w) => run::execute_update(store, update, w),
        None => {
            let mut w = Wal::new(store.dict.len());
            run::execute_update(store, update, &mut w)
        }
    }
}

fn parse_query(q: &str) -> Query {
    let parsed = SparqlParser::new().parse_query(q).unwrap();
    read_query(&parsed.to_sse()).unwrap()
}

fn test_store() -> TripleStore {
    let mut store = TripleStore::new();
    store.ingest_str_triples(&[
        (
            "http://example.org/alice",
            "http://example.org/knows",
            "http://example.org/bob",
        ),
        (
            "http://example.org/bob",
            "http://example.org/knows",
            "http://example.org/charlie",
        ),
        ("http://example.org/bob", "http://example.org/age", "25"),
        (
            "http://example.org/charlie",
            "http://example.org/knows",
            "http://example.org/alice",
        ),
    ]);
    store
}

fn rows_of(store: &TripleStore, query: &str) -> Vec<Value> {
    let engine = HybridEngine::new();
    let result: Value =
        serde_json::from_str(&execute_sparql(store, &engine, query).unwrap()).unwrap();
    result["results"]["bindings"].as_array().unwrap().clone()
}

const XSD_INT: &str = "http://www.w3.org/2001/XMLSchema#integer";

/// A BGP lookup of a literal must respect the datatype: `"25"`
/// (= xsd:string) must not match the same-named xsd:integer literal.
#[test]
fn bgp_literal_lookup_respects_datatype() {
    let mut store = TripleStore::new();
    let s_int = store
        .dict
        .insert_with_type("http://example.org/sInt", TermType::Iri);
    let s_str = store
        .dict
        .insert_with_type("http://example.org/sStr", TermType::Iri);
    let p = store
        .dict
        .insert_with_type("http://example.org/p", TermType::Iri);
    let o_int = store
        .dict
        .insert_with_type("25", TermType::literal_datatype(XSD_INT.to_string()));
    let o_str = store.dict.insert_with_type("25", TermType::literal_plain());
    assert_ne!(o_int, o_str, "typed literals must have different IDs");
    store.insert_triple(s_int, p, o_int);
    store.insert_triple(s_str, p, o_str);

    // "25" without a type -> xsd:string -> only sStr.
    let rows = rows_of(
        &store,
        "SELECT ?s WHERE { ?s <http://example.org/p> \"25\" }",
    );
    assert_eq!(rows.len(), 1);
    assert_eq!(rows[0]["s"]["value"], "http://example.org/sStr");

    // "25"^^xsd:integer -> only sInt.
    let rows = rows_of(
        &store,
        "SELECT ?s WHERE { ?s <http://example.org/p> \"25\"^^<http://www.w3.org/2001/XMLSchema#integer> }",
    );
    assert_eq!(rows.len(), 1);
    assert_eq!(rows[0]["s"]["value"], "http://example.org/sInt");
}

/// SPARQL 1.1: division by zero is an error -> the row drops out in the
/// FILTER (no INFINITY that would satisfy `> 0`).
#[test]
fn filter_division_by_zero_drops_row() {
    let mut store = TripleStore::new();
    let s = store
        .dict
        .insert_with_type("http://example.org/s", TermType::Iri);
    let p = store
        .dict
        .insert_with_type("http://example.org/v", TermType::Iri);
    let o = store
        .dict
        .insert_with_type("5", TermType::literal_datatype(XSD_INT.to_string()));
    store.insert_triple(s, p, o);

    let rows = rows_of(
        &store,
        "SELECT ?s WHERE { ?s <http://example.org/v> ?v FILTER(?v / 0 > 0) }",
    );
    assert_eq!(rows.len(), 0);
}

/// FILTER with `<` on IRIs must compare (previously: always an error -> empty).
#[test]
fn filter_iri_less_than_compares() {
    let mut store = TripleStore::new();
    store.ingest_str_triples(&[(
        "http://example.org/a",
        "http://example.org/p",
        "http://example.org/b",
    )]);
    // a < b lexically -> one row.
    let rows = rows_of(
        &store,
        "SELECT ?x ?y WHERE { ?x <http://example.org/p> ?y FILTER(?x < ?y) }",
    );
    assert_eq!(rows.len(), 1);
    // reversed: b < a is false -> empty.
    let rows = rows_of(
        &store,
        "SELECT ?x ?y WHERE { ?x <http://example.org/p> ?y FILTER(?y < ?x) }",
    );
    assert_eq!(rows.len(), 0);
}

/// isBlank distinguishes blank nodes from IRIs; the IRI object must not pass
/// as a blank node, and it is output as `bnode`.
#[test]
fn isblank_distinguishes_blank_from_iri() {
    let mut store = TripleStore::new();
    let s_b = store
        .dict
        .insert_with_type("http://example.org/sB", TermType::Iri);
    let s_i = store
        .dict
        .insert_with_type("http://example.org/sI", TermType::Iri);
    let p = store
        .dict
        .insert_with_type("http://example.org/p", TermType::Iri);
    let blank = store.dict.insert_with_type("b0", TermType::BlankNode);
    let iri = store
        .dict
        .insert_with_type("http://example.org/o", TermType::Iri);
    store.insert_triple(s_b, p, blank);
    store.insert_triple(s_i, p, iri);

    let rows = rows_of(
        &store,
        "SELECT ?s ?o WHERE { ?s <http://example.org/p> ?o FILTER(isBlank(?o)) }",
    );
    assert_eq!(rows.len(), 1);
    assert_eq!(rows[0]["s"]["value"], "http://example.org/sB");
    assert_eq!(rows[0]["o"]["type"], "bnode");

    // isIri is complementary: only the IRI object.
    let rows = rows_of(
        &store,
        "SELECT ?s WHERE { ?s <http://example.org/p> ?o FILTER(isIri(?o)) }",
    );
    assert_eq!(rows.len(), 1);
    assert_eq!(rows[0]["s"]["value"], "http://example.org/sI");
}

#[test]
fn optional_with_match() {
    let store = test_store();
    let engine = HybridEngine::new();
    let query = "SELECT ?a ?b ?age WHERE { ?a <http://example.org/knows> ?b . OPTIONAL { ?b <http://example.org/age> ?age } }";
    let result: Value =
        serde_json::from_str(&execute_sparql(&store, &engine, query).unwrap()).unwrap();
    let rows = result["results"]["bindings"].as_array().unwrap();
    // alice->bob has age 25; charlie->alice has no age
    assert_eq!(rows.len(), 3);
    let ages: Vec<Option<i64>> = rows
        .iter()
        .map(|r| {
            r.get("age")
                .and_then(|v| v.get("value"))
                .and_then(|v| v.as_str())
                .map(|s| s.parse().unwrap())
        })
        .collect();
    assert!(ages.contains(&Some(25)));
    assert!(ages.contains(&None));
}

#[test]
fn select_with_unknown_constant_returns_empty_not_panic() {
    let store = test_store();
    let engine = HybridEngine::new();
    // <…/zzz> does not occur in the store -> empty solution, no panic.
    let query = "SELECT ?p ?o WHERE { <http://example.org/zzz> ?p ?o }";
    let result: Value =
        serde_json::from_str(&execute_sparql(&store, &engine, query).unwrap()).unwrap();
    assert_eq!(result["results"]["bindings"].as_array().unwrap().len(), 0);
    // Head variables are preserved.
    let head: Vec<&str> = result["head"]["vars"]
        .as_array()
        .unwrap()
        .iter()
        .map(|v| v.as_str().unwrap())
        .collect();
    assert_eq!(head, vec!["p", "o"]);
}

#[test]
fn optional_multi_match_expands_rows() {
    // bob has two ages -> the left row alice->bob must expand to TWO output
    // rows; carol (no age) stays a single NULL row.
    let mut store = TripleStore::new();
    store.ingest_str_triples(&[
        (
            "http://example.org/alice",
            "http://example.org/knows",
            "http://example.org/bob",
        ),
        (
            "http://example.org/alice",
            "http://example.org/knows",
            "http://example.org/carol",
        ),
        ("http://example.org/bob", "http://example.org/age", "25"),
        ("http://example.org/bob", "http://example.org/age", "26"),
    ]);
    let engine = HybridEngine::new();
    let query = "SELECT ?b ?age WHERE { ?a <http://example.org/knows> ?b . OPTIONAL { ?b <http://example.org/age> ?age } }";
    let result: Value =
        serde_json::from_str(&execute_sparql(&store, &engine, query).unwrap()).unwrap();
    let rows = result["results"]["bindings"].as_array().unwrap();
    // bob×{25,26} = 2 rows + carol×NULL = 1 row.
    assert_eq!(rows.len(), 3);
    let ages: Vec<Option<String>> = rows
        .iter()
        .map(|r| {
            r.get("age")
                .and_then(|v| v.get("value"))
                .and_then(|v| v.as_str())
                .map(|s| s.to_string())
        })
        .collect();
    assert!(ages.contains(&Some("25".to_string())));
    assert!(ages.contains(&Some("26".to_string())));
    assert!(ages.contains(&None));
}

#[test]
fn optional_without_match_returns_null() {
    let store = test_store();
    let engine = HybridEngine::new();
    let query = "SELECT ?a ?c WHERE { ?a <http://example.org/knows> ?b . OPTIONAL { ?b <http://example.org/unknown> ?c } }";
    let result: Value =
        serde_json::from_str(&execute_sparql(&store, &engine, query).unwrap()).unwrap();
    let rows = result["results"]["bindings"].as_array().unwrap();
    assert_eq!(rows.len(), 3);
    for row in rows {
        assert!(row.get("c").is_none() || row["c"].is_null());
    }
}

#[test]
fn distinct_applies_after_projection() {
    // Two triples with predicate knows + one with age.
    // SELECT DISTINCT ?p must return {knows, age} = 2 rows,
    // NOT 3 (knows must not appear twice).
    let store = test_store();
    let engine = HybridEngine::new();
    let query = "SELECT DISTINCT ?p WHERE { ?s ?p ?o }";
    let result: Value =
        serde_json::from_str(&execute_sparql(&store, &engine, query).unwrap()).unwrap();
    let rows = result["results"]["bindings"].as_array().unwrap();
    assert_eq!(
        rows.len(),
        2,
        "DISTINCT ?p should dedup on the projected column"
    );
}

#[test]
fn limit_after_projection() {
    let store = test_store();
    let engine = HybridEngine::new();
    let query = "SELECT DISTINCT ?p WHERE { ?s ?p ?o } LIMIT 1";
    let result: Value =
        serde_json::from_str(&execute_sparql(&store, &engine, query).unwrap()).unwrap();
    let rows = result["results"]["bindings"].as_array().unwrap();
    assert_eq!(rows.len(), 1);
}

#[test]
fn filter_numeric_comparison() {
    let mut store = TripleStore::new();
    let dt = "http://www.w3.org/2001/XMLSchema#integer";
    let alice = store.dict.insert("http://example.org/alice");
    let bob = store.dict.insert("http://example.org/bob");
    let age = store.dict.insert("http://example.org/age");
    let v30 = store
        .dict
        .insert_with_type("30", TermType::literal_datatype(dt.to_string()));
    let v25 = store
        .dict
        .insert_with_type("25", TermType::literal_datatype(dt.to_string()));
    store.insert_triple(alice, age, v30);
    store.insert_triple(bob, age, v25);
    let engine = HybridEngine::new();
    let query = "SELECT ?p ?a WHERE { ?p <http://example.org/age> ?a FILTER(?a > 26) }";
    let result: Value =
        serde_json::from_str(&execute_sparql(&store, &engine, query).unwrap()).unwrap();
    let rows = result["results"]["bindings"].as_array().unwrap();
    assert_eq!(rows.len(), 1, "only 30 > 26");
    assert_eq!(rows[0]["a"]["value"], "30");
}

#[test]
fn filter_str_function() {
    let store = test_store();
    let engine = HybridEngine::new();
    // CONTAINS(STR(?b), "bob") -> only alice->bob.
    let query = "SELECT ?a ?b WHERE { ?a <http://example.org/knows> ?b \
                 FILTER(CONTAINS(STR(?b), \"bob\")) }";
    let result: Value =
        serde_json::from_str(&execute_sparql(&store, &engine, query).unwrap()).unwrap();
    let rows = result["results"]["bindings"].as_array().unwrap();
    assert_eq!(rows.len(), 1);
    assert_eq!(rows[0]["b"]["value"], "http://example.org/bob");
}

#[test]
fn filter_iri_inequality_and_logical() {
    let store = test_store(); // knows: alice->bob, bob->charlie, charlie->alice
    let engine = HybridEngine::new();
    let query = "SELECT ?a ?b WHERE { ?a <http://example.org/knows> ?b \
                 FILTER(?b != <http://example.org/charlie>) }";
    let result: Value =
        serde_json::from_str(&execute_sparql(&store, &engine, query).unwrap()).unwrap();
    let rows = result["results"]["bindings"].as_array().unwrap();
    // bob (->charlie) drops out; alice->bob and charlie->alice remain.
    assert_eq!(rows.len(), 2);
    for r in rows {
        assert_ne!(r["b"]["value"], "http://example.org/charlie");
    }
}

fn values_of<'a>(rows: &'a [Value], var: &str) -> Vec<&'a str> {
    rows.iter()
        .map(|r| {
            r.get(var)
                .and_then(|v| v.get("value"))
                .and_then(|v| v.as_str())
                .unwrap_or("")
        })
        .collect()
}

#[test]
fn order_by_ascending_on_iri() {
    let store = test_store(); // knows objects: bob, charlie, alice
    let engine = HybridEngine::new();
    let query = "SELECT ?b WHERE { ?a <http://example.org/knows> ?b } ORDER BY ?b";
    let result: Value =
        serde_json::from_str(&execute_sparql(&store, &engine, query).unwrap()).unwrap();
    let rows = result["results"]["bindings"].as_array().unwrap();
    assert_eq!(
        values_of(rows, "b"),
        vec![
            "http://example.org/alice",
            "http://example.org/bob",
            "http://example.org/charlie",
        ]
    );
}

#[test]
fn order_by_desc_with_limit() {
    let store = test_store();
    let engine = HybridEngine::new();
    let query = "SELECT ?b WHERE { ?a <http://example.org/knows> ?b } \
                 ORDER BY DESC(?b) LIMIT 2";
    let result: Value =
        serde_json::from_str(&execute_sparql(&store, &engine, query).unwrap()).unwrap();
    let rows = result["results"]["bindings"].as_array().unwrap();
    assert_eq!(
        values_of(rows, "b"),
        vec!["http://example.org/charlie", "http://example.org/bob"]
    );
}

#[test]
fn order_by_numeric_not_lexical() {
    // 9 < 25 < 100 numerically; lexically it would be "100" < "25" < "9".
    let mut store = TripleStore::new();
    let dt = "http://www.w3.org/2001/XMLSchema#integer";
    let s = store.dict.insert("http://example.org/x");
    let age = store.dict.insert("http://example.org/age");
    for v in ["100", "9", "25"] {
        let o = store
            .dict
            .insert_with_type(v, TermType::literal_datatype(dt.to_string()));
        store.insert_triple(s, age, o);
    }
    let engine = HybridEngine::new();
    let query = "SELECT ?a WHERE { ?s <http://example.org/age> ?a } ORDER BY ?a";
    let result: Value =
        serde_json::from_str(&execute_sparql(&store, &engine, query).unwrap()).unwrap();
    let rows = result["results"]["bindings"].as_array().unwrap();
    assert_eq!(values_of(rows, "a"), vec!["9", "25", "100"]);
}

#[test]
fn order_by_with_distinct() {
    let store = test_store();
    let engine = HybridEngine::new();
    // DISTINCT ?p -> {knows, age}; ORDER BY ?p sorts the two predicates.
    let query = "SELECT DISTINCT ?p WHERE { ?s ?p ?o } ORDER BY ?p";
    let result: Value =
        serde_json::from_str(&execute_sparql(&store, &engine, query).unwrap()).unwrap();
    let rows = result["results"]["bindings"].as_array().unwrap();
    assert_eq!(
        values_of(rows, "p"),
        vec!["http://example.org/age", "http://example.org/knows"]
    );
}

#[test]
fn union_combines_branches_same_var() {
    let store = test_store();
    let engine = HybridEngine::new();
    // Branch 1: knows objects (bob, charlie, alice); branch 2: age object (25).
    let query = "SELECT ?o WHERE { \
                 { ?s <http://example.org/knows> ?o } UNION \
                 { ?s <http://example.org/age> ?o } }";
    let result: Value =
        serde_json::from_str(&execute_sparql(&store, &engine, query).unwrap()).unwrap();
    let mut vals = values_of(result["results"]["bindings"].as_array().unwrap(), "o");
    vals.sort();
    assert_eq!(
        vals,
        vec![
            "25",
            "http://example.org/alice",
            "http://example.org/bob",
            "http://example.org/charlie",
        ]
    );
}

#[test]
fn union_aligns_differing_vars_with_null() {
    let store = test_store();
    let engine = HybridEngine::new();
    // Branch 1 binds only ?a, branch 2 only ?b -> columns must be NULL-aligned.
    let query = "SELECT ?a ?b WHERE { \
                 { ?a <http://example.org/knows> <http://example.org/bob> } UNION \
                 { ?b <http://example.org/knows> <http://example.org/alice> } }";
    let result: Value =
        serde_json::from_str(&execute_sparql(&store, &engine, query).unwrap()).unwrap();
    let rows = result["results"]["bindings"].as_array().unwrap();
    assert_eq!(rows.len(), 2);
    // One row has a=alice (b NULL), the other b=charlie (a NULL).
    let a_only = rows.iter().any(|r| {
        r.get("a")
            .and_then(|v| v.get("value"))
            .and_then(|v| v.as_str())
            == Some("http://example.org/alice")
            && (r.get("b").is_none() || r["b"].is_null())
    });
    let b_only = rows.iter().any(|r| {
        r.get("b")
            .and_then(|v| v.get("value"))
            .and_then(|v| v.as_str())
            == Some("http://example.org/charlie")
            && (r.get("a").is_none() || r["a"].is_null())
    });
    assert!(a_only, "row with only ?a=alice is missing");
    assert!(b_only, "row with only ?b=charlie is missing");
}

fn path_store() -> TripleStore {
    // Chain alice -> bob -> carol -> dave (knows) + alice likes eve.
    let mut store = TripleStore::new();
    let k = "http://example.org/knows";
    let l = "http://example.org/likes";
    let e = "http://example.org/";
    store.ingest_str_triples(&[
        (&format!("{e}alice"), k, &format!("{e}bob")),
        (&format!("{e}bob"), k, &format!("{e}carol")),
        (&format!("{e}carol"), k, &format!("{e}dave")),
        (&format!("{e}alice"), l, &format!("{e}eve")),
    ]);
    store
}

fn obj_values(query: &str) -> Vec<String> {
    let store = path_store();
    let engine = HybridEngine::new();
    let result: Value =
        serde_json::from_str(&execute_sparql(&store, &engine, query).unwrap()).unwrap();
    let rows = result["results"]["bindings"].as_array().unwrap();
    let mut vals: Vec<String> = rows
        .iter()
        .filter_map(|r| {
            r.get("o")
                .and_then(|v| v.get("value"))
                .and_then(|v| v.as_str())
                .map(|s| s.trim_start_matches("http://example.org/").to_string())
        })
        .collect();
    vals.sort();
    vals
}

#[test]
fn path_one_or_more() {
    // alice knows+ ?o -> bob, carol, dave (transitive closure, without alice).
    assert_eq!(
        obj_values(
            "SELECT ?o WHERE { <http://example.org/alice> <http://example.org/knows>+ ?o }"
        ),
        vec!["bob", "carol", "dave"]
    );
}

#[test]
fn path_zero_or_more_includes_self() {
    // alice knows* ?o -> alice (0 steps), bob, carol, dave.
    assert_eq!(
        obj_values(
            "SELECT ?o WHERE { <http://example.org/alice> <http://example.org/knows>* ?o }"
        ),
        vec!["alice", "bob", "carol", "dave"]
    );
}

#[test]
fn path_zero_or_one() {
    // alice knows? ?o -> alice (0) + bob (1).
    assert_eq!(
        obj_values(
            "SELECT ?o WHERE { <http://example.org/alice> <http://example.org/knows>? ?o }"
        ),
        vec!["alice", "bob"]
    );
}

#[test]
fn path_sequence() {
    // alice knows/knows ?o -> carol (2 steps).
    assert_eq!(
        obj_values(
            "SELECT ?o WHERE { <http://example.org/alice> <http://example.org/knows>/<http://example.org/knows> ?o }"
        ),
        vec!["carol"]
    );
}

#[test]
fn path_alternative() {
    // alice (knows|likes) ?o -> bob, eve.
    assert_eq!(
        obj_values(
            "SELECT ?o WHERE { <http://example.org/alice> (<http://example.org/knows>|<http://example.org/likes>) ?o }"
        ),
        vec!["bob", "eve"]
    );
}

#[test]
fn path_inverse() {
    // bob ^knows ?s -> who knows bob = alice (evaluated over the ?s column).
    let store = path_store();
    let engine = HybridEngine::new();
    let q = "SELECT ?s WHERE { <http://example.org/bob> ^<http://example.org/knows> ?s }";
    let result: Value =
        serde_json::from_str(&execute_sparql(&store, &engine, q).unwrap()).unwrap();
    let rows = result["results"]["bindings"].as_array().unwrap();
    assert_eq!(rows.len(), 1);
    assert_eq!(rows[0]["s"]["value"], "http://example.org/alice");
}

#[test]
fn path_both_variables_transitive() {
    // ?s knows+ ?o -> all reachable pairs: (alice,{bob,carol,dave}),
    // (bob,{carol,dave}), (carol,{dave}) = 6 pairs.
    let store = path_store();
    let engine = HybridEngine::new();
    let q = "SELECT ?s ?o WHERE { ?s <http://example.org/knows>+ ?o }";
    let result: Value =
        serde_json::from_str(&execute_sparql(&store, &engine, q).unwrap()).unwrap();
    let rows = result["results"]["bindings"].as_array().unwrap();
    assert_eq!(rows.len(), 6, "6 transitively reachable (s,o) pairs");
}

#[test]
fn path_in_c2rpq_join() {
    // C2RPQ form: path join BGP. All triples in ONE ingest, since
    // ingest_str_triples rebuilds the indexes each time (does not append).
    let mut store = TripleStore::new();
    let k = "http://example.org/knows";
    let l = "http://example.org/likes";
    let e = "http://example.org/";
    store.ingest_str_triples(&[
        (&format!("{e}alice"), k, &format!("{e}bob")),
        (&format!("{e}bob"), k, &format!("{e}carol")),
        (&format!("{e}carol"), k, &format!("{e}dave")),
        (&format!("{e}alice"), l, &format!("{e}eve")),
        (&format!("{e}carol"), l, &format!("{e}zed")),
    ]);
    let engine = HybridEngine::new();
    // ?s knows+ ?mid . ?mid likes ?z  -> ?mid must be carol (carol likes zed),
    // reachable from alice and bob -> 2 hits.
    let q = "SELECT ?s ?z WHERE { ?s <http://example.org/knows>+ ?mid . \
             ?mid <http://example.org/likes> ?z }";
    let result: Value =
        serde_json::from_str(&execute_sparql(&store, &engine, q).unwrap()).unwrap();
    let rows = result["results"]["bindings"].as_array().unwrap();
    assert_eq!(rows.len(), 2, "alice/bob knows+ carol; carol likes zed");
    for r in rows {
        assert_eq!(r["z"]["value"], "http://example.org/zed");
    }
}

#[test]
fn stream_produces_ndjson_lines() {
    let store = test_store();
    let engine = HybridEngine::new();
    let query = "SELECT ?a ?b WHERE { ?a <http://example.org/knows> ?b }";
    let select = evaluate_select(&store, &engine, query).unwrap();
    assert_eq!(select.rows.n_rows(), 3);
    assert_eq!(select.vars, vec!["a", "b"]);
}

#[test]
fn chained_optional_referencing_prior_optional_var() {
    // Reproduces the WDBench `opts` q3 shape (a chained OPTIONAL):
    // an OPTIONAL whose pattern uses a variable bound only in an EARLIER
    // OPTIONAL (a "not well-designed" pattern).
    //   ?x1 P102 <O> .
    //   OPTIONAL { ?x1 P569 ?x2 }
    //   OPTIONAL { ?x1 P19  ?x3 }
    //   OPTIONAL { ?x1 P21  ?x4 }
    //   OPTIONAL { ?x3 P625 ?x5 }   <- ?x3 comes from the 2nd OPTIONAL
    let e = "http://ex/";
    let mut store = TripleStore::new();
    store.ingest_str_triples(&[
        // base: s1, s2 haben P102 -> O
        (&format!("{e}s1"), &format!("{e}P102"), &format!("{e}O")),
        (&format!("{e}s2"), &format!("{e}P102"), &format!("{e}O")),
        (&format!("{e}s1"), &format!("{e}P569"), &format!("{e}v1")), // x2: s1 only
        (&format!("{e}s1"), &format!("{e}P19"), &format!("{e}m1")),  // x3: s1 -> {m1,m2}
        (&format!("{e}s1"), &format!("{e}P19"), &format!("{e}m2")),
        (&format!("{e}s1"), &format!("{e}P21"), &format!("{e}g")), // x4: s1 only
        (&format!("{e}m1"), &format!("{e}P625"), &format!("{e}c1")), // x5 via x3
        (&format!("{e}m2"), &format!("{e}P625"), &format!("{e}c2")),
        // NOISE: P625 from a subject NOT reachable via x3.
        // A cross-product would wrongly pull this in.
        (&format!("{e}noise"), &format!("{e}P625"), &format!("{e}nc")),
    ]);
    let engine = HybridEngine::new();
    let q = format!(
        "SELECT * WHERE {{ ?x1 <{e}P102> <{e}O> . \
         OPTIONAL {{ ?x1 <{e}P569> ?x2 }} \
         OPTIONAL {{ ?x1 <{e}P19> ?x3 }} \
         OPTIONAL {{ ?x1 <{e}P21> ?x4 }} \
         OPTIONAL {{ ?x3 <{e}P625> ?x5 }} }}"
    );
    let result: Value =
        serde_json::from_str(&execute_sparql(&store, &engine, &q).unwrap()).unwrap();
    let rows = result["results"]["bindings"].as_array().unwrap();
    // Correct SPARQL semantics (left-deep):
    //   s1×{m1,m2} -> 2 rows with x5=c1/c2; s2 -> 1 fully NULL row = 3.
    // NO cross product: the noise triple (noise P625 nc) must NOT appear.
    assert_eq!(rows.len(), 3, "left-deep OPTIONAL chain, no cross product");
    let x5: Vec<Option<&str>> = rows
        .iter()
        .map(|r| {
            r.get("x5")
                .and_then(|v| v.get("value"))
                .and_then(|v| v.as_str())
        })
        .collect();
    assert!(x5.contains(&Some("http://ex/c1")));
    assert!(x5.contains(&Some("http://ex/c2")));
    assert!(x5.contains(&None)); // s2 row: x3=NULL -> x5=NULL
    assert!(
        !x5.contains(&Some("http://ex/nc")),
        "no noise triple (cross product)"
    );
}

#[test]
fn limit_on_multi_pattern_bgp_is_pushed_down() {
    // 2-pattern join `?s knows ?b . ?b knows ?x`: s->{b1..b5}, each bi->x.
    // Full result = 5 rows; LIMIT 3 must return exactly 3 valid rows
    // (pipelined DFS terminates early instead of materializing all 5).
    let e = "http://ex/";
    let k = format!("{e}knows");
    let mut triples: Vec<(String, String, String)> = Vec::new();
    for i in 1..=5 {
        triples.push((format!("{e}s"), k.clone(), format!("{e}b{i}")));
        triples.push((format!("{e}b{i}"), k.clone(), format!("{e}x")));
    }
    let refs: Vec<(&str, &str, &str)> = triples
        .iter()
        .map(|(a, b, c)| (a.as_str(), b.as_str(), c.as_str()))
        .collect();
    let mut store = TripleStore::new();
    store.ingest_str_triples(&refs);
    let engine = HybridEngine::new();
    let q = format!("SELECT ?s ?b ?x WHERE {{ ?s <{k}> ?b . ?b <{k}> ?x }} LIMIT 3");
    let r: Value = serde_json::from_str(&execute_sparql(&store, &engine, &q).unwrap()).unwrap();
    let rows = r["results"]["bindings"].as_array().unwrap();
    assert_eq!(rows.len(), 3, "LIMIT 3 -> exactly 3 rows");
    for row in rows {
        assert_eq!(row["x"]["value"], "http://ex/x");
        assert!(
            row["b"]["value"]
                .as_str()
                .unwrap()
                .starts_with("http://ex/b")
        );
    }
    // Without LIMIT: all 5.
    let q_all = format!("SELECT ?s ?b ?x WHERE {{ ?s <{k}> ?b . ?b <{k}> ?x }}");
    let r2: Value =
        serde_json::from_str(&execute_sparql(&store, &engine, &q_all).unwrap()).unwrap();
    assert_eq!(r2["results"]["bindings"].as_array().unwrap().len(), 5);
}

#[test]
fn path_sequence_with_closure_rhs() {
    // WDBench paths bug: `<s> (k1/(k2)*) ?x`. spargebra decomposes this into
    // Join(<s> k1 _:b, _:b (k2)* ?x) — the blank-node node must act as a
    // variable, otherwise eval_path would wrongly return 0.
    // Data: s -k1-> m ; m -k2-> n1 -k2-> n2.  Expected ?x = {m,n1,n2}.
    let e = "http://ex/";
    let mut store = TripleStore::new();
    store.ingest_str_triples(&[
        (&format!("{e}s"), &format!("{e}k1"), &format!("{e}m")),
        (&format!("{e}m"), &format!("{e}k2"), &format!("{e}n1")),
        (&format!("{e}n1"), &format!("{e}k2"), &format!("{e}n2")),
    ]);
    let engine = HybridEngine::new();
    let q = format!("SELECT * WHERE {{ <{e}s> (<{e}k1>/(<{e}k2>)*) ?x }}");
    let r: Value = serde_json::from_str(&execute_sparql(&store, &engine, &q).unwrap()).unwrap();
    let mut xs: Vec<String> = r["results"]["bindings"]
        .as_array()
        .unwrap()
        .iter()
        .map(|b| b["x"]["value"].as_str().unwrap().to_string())
        .collect();
    xs.sort();
    assert_eq!(
        xs,
        vec![format!("{e}m"), format!("{e}n1"), format!("{e}n2")],
        "k1/(k2)* must return m (0×k2) + n1 + n2"
    );
    // The __bn_ variable must not be output.
    let head: Vec<&str> = r["head"]["vars"]
        .as_array()
        .unwrap()
        .iter()
        .map(|v| v.as_str().unwrap())
        .collect();
    assert_eq!(head, vec!["x"], "only ?x, no __bn_ in SELECT *");
}

#[test]
fn semijoin_over_blank_node_path_bound_object() {
    // c2rpq form: `?x (k1/(k2)*) <const>` (bound object). spargebra ->
    // Join(?x k1 _:b, _:b (k2)* <const>); the right side has ONLY the
    // join key as a variable (semi-join, new_arity=0). Previously hash_join
    // swallowed this (empty bucket) -> 0 rows. Now correct.
    // s -k1-> m -k2-> n1 -k2-> n2.
    let e = "http://ex/";
    let mut store = TripleStore::new();
    store.ingest_str_triples(&[
        (&format!("{e}s"), &format!("{e}k1"), &format!("{e}m")),
        (&format!("{e}m"), &format!("{e}k2"), &format!("{e}n1")),
        (&format!("{e}n1"), &format!("{e}k2"), &format!("{e}n2")),
    ]);
    let engine = HybridEngine::new();
    for target in ["m", "n1", "n2"] {
        // s reaches every target via k1 then k2* -> exactly {s}.
        let q = format!("SELECT * WHERE {{ ?x (<{e}k1>/(<{e}k2>)*) <{e}{target}> }}");
        let r: Value =
            serde_json::from_str(&execute_sparql(&store, &engine, &q).unwrap()).unwrap();
        let rows = r["results"]["bindings"].as_array().unwrap();
        assert_eq!(rows.len(), 1, "target {target}: exactly one ?x");
        assert_eq!(
            rows[0]["x"]["value"],
            format!("{e}s"),
            "target {target}: ?x=s"
        );
    }
}

#[test]
fn semijoin_counts_multiple_right_matches() {
    // The semi-join must preserve the hit count: two ways a->c via b1/b2.
    // `?x knows/knows <c>` (bound object) -> a via b1 AND via b2 = 2 rows.
    let e = "http://ex/";
    let k = format!("{e}knows");
    let mut store = TripleStore::new();
    store.ingest_str_triples(&[
        (&format!("{e}a"), &k, &format!("{e}b1")),
        (&format!("{e}a"), &k, &format!("{e}b2")),
        (&format!("{e}b1"), &k, &format!("{e}c")),
        (&format!("{e}b2"), &k, &format!("{e}c")),
    ]);
    let engine = HybridEngine::new();
    let q = format!("SELECT * WHERE {{ ?x <{k}>/<{k}> <{e}c> }}");
    let r: Value = serde_json::from_str(&execute_sparql(&store, &engine, &q).unwrap()).unwrap();
    let rows = r["results"]["bindings"].as_array().unwrap();
    assert_eq!(rows.len(), 2, "two paths a->c (via b1 and b2)");
    for row in rows {
        assert_eq!(row["x"]["value"], format!("{e}a"));
    }
}

#[test]
fn ingests_and_queries_blank_nodes() {
    // Blank-node triples are loaded (not skipped), output as `bnode`, and
    // the same `_:b0` across multiple lines is the same node (document-scoped
    // identity -> join works).
    let mut store = TripleStore::new();
    store
        .ingest_ntriples_file(
            "<http://ex/alice> <http://ex/knows> _:b0 .\n\
             _:b0 <http://ex/name> \"Bob\" .\n",
        )
        .unwrap();
    let engine = HybridEngine::new();

    // (1) Object is a blank node -> type=bnode.
    let q = "SELECT ?x WHERE { <http://ex/alice> <http://ex/knows> ?x }";
    let r: Value = serde_json::from_str(&execute_sparql(&store, &engine, q).unwrap()).unwrap();
    let rows = r["results"]["bindings"].as_array().unwrap();
    assert_eq!(rows.len(), 1, "blank-node triple was loaded");
    assert_eq!(rows[0]["x"]["type"], "bnode");

    // (2) Join over the same blank node (both _:b0 = the same ID).
    let q2 = "SELECT ?n WHERE { <http://ex/alice> <http://ex/knows> ?b . \
              ?b <http://ex/name> ?n }";
    let r2: Value =
        serde_json::from_str(&execute_sparql(&store, &engine, q2).unwrap()).unwrap();
    let rows2 = r2["results"]["bindings"].as_array().unwrap();
    assert_eq!(rows2.len(), 1, "join over the same blank node");
    assert_eq!(rows2[0]["n"]["value"], "Bob");
}

/// sameTerm is exact RDF-term equality: `"1"^^xsd:integer` and
/// `"1"^^xsd:double` are different terms, even though `=` promotes them.
#[test]
fn sameterm_distinguishes_datatypes() {
    let xsd_double = "http://www.w3.org/2001/XMLSchema#double";
    let mut store = TripleStore::new();
    let s1 = store.dict.insert_with_type("http://ex/s1", TermType::Iri);
    let s2 = store.dict.insert_with_type("http://ex/s2", TermType::Iri);
    let p = store.dict.insert_with_type("http://ex/p", TermType::Iri);
    let v_int = store
        .dict
        .insert_with_type("1", TermType::literal_datatype(XSD_INT.to_string()));
    let v_dbl = store
        .dict
        .insert_with_type("1", TermType::literal_datatype(xsd_double.to_string()));
    store.insert_triple(s1, p, v_int);
    store.insert_triple(s2, p, v_dbl);

    let rows = rows_of(
        &store,
        "SELECT ?s WHERE { ?s <http://ex/p> ?v \
         FILTER(sameTerm(?v, \"1\"^^<http://www.w3.org/2001/XMLSchema#integer>)) }",
    );
    assert_eq!(rows.len(), 1, "sameTerm must match only the integer term");
    assert_eq!(rows[0]["s"]["value"], "http://ex/s1");

    // value-equality promotes numerically -> matches both.
    let rows = rows_of(
        &store,
        "SELECT ?s WHERE { ?s <http://ex/p> ?v \
         FILTER(?v = \"1\"^^<http://www.w3.org/2001/XMLSchema#integer>) }",
    );
    assert_eq!(rows.len(), 2, "= promotes numerics across datatypes");
}

/// SPARQL three-valued OR/AND: a `true`/`false` wins even when the other
/// operand errors (and that operand is short-circuited).
#[test]
fn logical_or_and_three_valued_with_error() {
    let mut store = TripleStore::new();
    let s = store.dict.insert_with_type("http://ex/s", TermType::Iri);
    let p = store.dict.insert_with_type("http://ex/v", TermType::Iri);
    let o = store
        .dict
        .insert_with_type("5", TermType::literal_datatype(XSD_INT.to_string()));
    store.insert_triple(s, p, o);
    let q = |f: &str| {
        rows_of(
            &store,
            &format!("SELECT ?s WHERE {{ ?s <http://ex/v> ?v FILTER({f}) }}"),
        )
        .len()
    };
    assert_eq!(q("?v = 5 || (?v / 0) > 0"), 1, "true || error -> true");
    assert_eq!(q("(?v / 0) > 0 || ?v = 5"), 1, "error || true -> true");
    assert_eq!(q("?v = 99 || (?v / 0) > 0"), 0, "false || error -> error");
    assert_eq!(q("?v = 99 && (?v / 0) > 0"), 0, "false && error -> false");
}

#[test]
fn insert_and_delete_data() {
    let mut store = TripleStore::new();
    execute_update(
        &mut store,
        "INSERT DATA { <http://ex/a> <http://ex/knows> <http://ex/b> }",
        None,
    )
    .unwrap();
    assert_eq!(store.triple_count(), 1);
    let rows = rows_of(
        &store,
        "SELECT ?o WHERE { <http://ex/a> <http://ex/knows> ?o }",
    );
    assert_eq!(rows.len(), 1);
    assert_eq!(rows[0]["o"]["value"], "http://ex/b");

    execute_update(
        &mut store,
        "DELETE DATA { <http://ex/a> <http://ex/knows> <http://ex/b> }",
        None,
    )
    .unwrap();
    assert_eq!(store.triple_count(), 0);
}

#[test]
fn filter_in_strlen_bound() {
    let store = test_store(); // 3 knows edges
    let only_bob = rows_of(
        &store,
        "SELECT ?a ?b WHERE { ?a <http://example.org/knows> ?b \
         FILTER(?b IN (<http://example.org/bob>)) }",
    );
    assert_eq!(only_bob.len(), 1);
    let long = rows_of(
        &store,
        "SELECT ?b WHERE { ?a <http://example.org/knows> ?b \
         FILTER(STRLEN(STR(?b)) > 10) }",
    );
    assert_eq!(long.len(), 3);
    let bound = rows_of(
        &store,
        "SELECT ?b WHERE { ?a <http://example.org/knows> ?b FILTER(BOUND(?b)) }",
    );
    assert_eq!(bound.len(), 3);
}

// ── Inference integration tests ──────────────────────────────────────

#[test]
fn inference_subclasof_returns_additional_results() {
    let mut store = TripleStore::new();
    // RDFS schema: Dog subClassOf Animal
    store.ingest_str_triples(&[
        (
            "http://example.org/Dog",
            "http://www.w3.org/2000/01/rdf-schema#subClassOf",
            "http://example.org/Animal",
        ),
        // Data: Fido is a Dog
        (
            "http://example.org/Fido",
            "http://www.w3.org/1999/02/22-rdf-syntax-ns#type",
            "http://example.org/Dog",
        ),
    ]);

    let engine = HybridEngine::new();

    // Without inference: only direct type matches
    let no_infer: Value = serde_json::from_str(
        &execute_sparql(
            &store,
            &engine,
            "SELECT ?s WHERE { ?s <http://www.w3.org/1999/02/22-rdf-syntax-ns#type> <http://example.org/Animal> }",
        )
        .unwrap(),
    )
    .unwrap();
    let no_infer_rows = no_infer["results"]["bindings"].as_array().unwrap().len();
    assert_eq!(no_infer_rows, 0, "without inference, no direct Animal type");

    // With inference: Fido is a Dog and Dog subClassOf Animal -> Fido type Animal
    let with_infer: Value = serde_json::from_str(
        &execute_sparql_infer(
            &store,
            &engine,
            "SELECT ?s WHERE { ?s <http://www.w3.org/1999/02/22-rdf-syntax-ns#type> <http://example.org/Animal> }",
        )
        .unwrap(),
    )
    .unwrap();
    let with_infer_rows: Vec<&Value> = with_infer["results"]["bindings"]
        .as_array()
        .unwrap()
        .iter()
        .collect();
    assert_eq!(
        with_infer_rows.len(),
        1,
        "inference should find Fido as Animal"
    );
    assert_eq!(with_infer_rows[0]["s"]["value"], "http://example.org/Fido");
}

#[test]
fn inference_subproperty_returns_additional_results() {
    let mut store = TripleStore::new();
    // RDFS schema: hasPet subPropertyOf hasAnimal
    store.ingest_str_triples(&[
        (
            "http://example.org/hasPet",
            "http://www.w3.org/2000/01/rdf-schema#subPropertyOf",
            "http://example.org/hasAnimal",
        ),
        // Data: Alice hasPet Fido
        (
            "http://example.org/Alice",
            "http://example.org/hasPet",
            "http://example.org/Fido",
        ),
    ]);

    let engine = HybridEngine::new();

    // Without inference: no direct hasAnimal triples
    let no_infer: Value = serde_json::from_str(
        &execute_sparql(
            &store,
            &engine,
            "SELECT ?s ?o WHERE { ?s <http://example.org/hasAnimal> ?o }",
        )
        .unwrap(),
    )
    .unwrap();
    assert_eq!(
        no_infer["results"]["bindings"].as_array().unwrap().len(),
        0,
        "no direct hasAnimal triples"
    );

    // With inference: hasPet subPropertyOf hasAnimal -> Alice hasAnimal Fido
    let with_infer: Value = serde_json::from_str(
        &execute_sparql_infer(
            &store,
            &engine,
            "SELECT ?s ?o WHERE { ?s <http://example.org/hasAnimal> ?o }",
        )
        .unwrap(),
    )
    .unwrap();
    let rows = with_infer["results"]["bindings"].as_array().unwrap();
    assert_eq!(rows.len(), 1, "inference should find Alice hasAnimal Fido");
}

// -------------------------------------------------------------------
// REGEX in FILTER
// -------------------------------------------------------------------

#[test]
fn regex_filter_matches_case_insensitive() {
    let store = test_store(); // alice, bob, charlie
    let engine = HybridEngine::new();
    let query = "SELECT ?a ?b WHERE { ?a <http://example.org/knows> ?b \
                 FILTER(REGEX(STR(?a), \"ALICE$\", \"i\")) }";
    let result: Value =
        serde_json::from_str(&execute_sparql(&store, &engine, query).unwrap()).unwrap();
    let rows = result["results"]["bindings"].as_array().unwrap();
    assert_eq!(rows.len(), 1);
    assert_eq!(rows[0]["a"]["value"], "http://example.org/alice");
}

#[test]
fn regex_filter_no_match_drops_row() {
    let store = test_store();
    let engine = HybridEngine::new();
    let query = "SELECT ?a ?b WHERE { ?a <http://example.org/knows> ?b \
                 FILTER(REGEX(STR(?a), \"^nobody\")) }";
    let result: Value =
        serde_json::from_str(&execute_sparql(&store, &engine, query).unwrap()).unwrap();
    assert_eq!(result["results"]["bindings"].as_array().unwrap().len(), 0);
}

/// An invalid pattern/flag is a type error per SPARQL semantics: the row
/// is dropped rather than the query panicking or erroring out entirely.
#[test]
fn regex_filter_invalid_pattern_drops_row_not_panics() {
    let store = test_store();
    let engine = HybridEngine::new();
    let bad_pattern = "SELECT ?a ?b WHERE { ?a <http://example.org/knows> ?b \
                 FILTER(REGEX(STR(?a), \"(unclosed\")) }";
    let result: Value =
        serde_json::from_str(&execute_sparql(&store, &engine, bad_pattern).unwrap()).unwrap();
    assert_eq!(result["results"]["bindings"].as_array().unwrap().len(), 0);

    let bad_flag = "SELECT ?a ?b WHERE { ?a <http://example.org/knows> ?b \
                 FILTER(REGEX(STR(?a), \"alice\", \"z\")) }";
    let result: Value =
        serde_json::from_str(&execute_sparql(&store, &engine, bad_flag).unwrap()).unwrap();
    assert_eq!(result["results"]["bindings"].as_array().unwrap().len(), 0);
}

// -------------------------------------------------------------------
// BIND
// -------------------------------------------------------------------

#[test]
fn contains_extend_detects_bind() {
    let with_bind =
        parse_query("SELECT ?y WHERE { ?a <http://example.org/p> ?x BIND(?x + 1 AS ?y) }");
    let without_bind = parse_query("SELECT ?x WHERE { ?a <http://example.org/p> ?x }");
    let Query::Select(pattern) = with_bind else {
        unreachable!()
    };
    assert!(contains_extend(&pattern));
    let Query::Select(pattern) = without_bind else {
        unreachable!()
    };
    assert!(!contains_extend(&pattern));
}

#[test]
fn bind_computes_new_arithmetic_value() {
    let mut store = TripleStore::new();
    let dt = "http://www.w3.org/2001/XMLSchema#integer";
    let alice = store.dict.insert("http://example.org/alice");
    let age = store.dict.insert("http://example.org/age");
    let v25 = store
        .dict
        .insert_with_type("25", TermType::literal_datatype(dt.to_string()));
    store.insert_triple(alice, age, v25);
    let engine = HybridEngine::new();
    let query = "SELECT ?p ?doubled WHERE { \
                 ?p <http://example.org/age> ?a BIND(?a * 2 AS ?doubled) }";
    let result: Value =
        serde_json::from_str(&execute_sparql_bind(&mut store, &engine, query).unwrap())
            .unwrap();
    let rows = result["results"]["bindings"].as_array().unwrap();
    assert_eq!(rows.len(), 1);
    assert_eq!(rows[0]["doubled"]["value"], "50");
    assert_eq!(
        rows[0]["doubled"]["datatype"],
        "http://www.w3.org/2001/XMLSchema#double"
    );
}

/// BIND is not a filter: a type error in the expression (here, an
/// unbound operand) leaves the variable unbound rather than dropping
/// the row — unlike FILTER, which would drop it.
#[test]
fn bind_leaves_variable_unbound_on_error() {
    let mut store = test_store(); // 3 knows-triples
    let engine = HybridEngine::new();
    let query = "SELECT ?a ?y WHERE { \
                 ?a <http://example.org/knows> ?b BIND(?missing + 1 AS ?y) }";
    let result: Value =
        serde_json::from_str(&execute_sparql_bind(&mut store, &engine, query).unwrap())
            .unwrap();
    let rows = result["results"]["bindings"].as_array().unwrap();
    assert_eq!(rows.len(), 3, "rows are kept, not dropped");
    for row in rows {
        assert!(
            row.get("y").is_none(),
            "?y stays unbound and is omitted, not null"
        );
    }
}

/// The value BIND interns must be usable in a subsequent FILTER on the
/// same bound variable.
#[test]
fn bind_value_usable_in_subsequent_filter() {
    let mut store = TripleStore::new();
    let dt = "http://www.w3.org/2001/XMLSchema#integer";
    let alice = store.dict.insert("http://example.org/alice");
    let bob = store.dict.insert("http://example.org/bob");
    let age = store.dict.insert("http://example.org/age");
    let v30 = store
        .dict
        .insert_with_type("30", TermType::literal_datatype(dt.to_string()));
    let v10 = store
        .dict
        .insert_with_type("10", TermType::literal_datatype(dt.to_string()));
    store.insert_triple(alice, age, v30);
    store.insert_triple(bob, age, v10);
    let engine = HybridEngine::new();
    let query = "SELECT ?p WHERE { \
                 ?p <http://example.org/age> ?a BIND(?a * 2 AS ?y) FILTER(?y > 40) }";
    let result: Value =
        serde_json::from_str(&execute_sparql_bind(&mut store, &engine, query).unwrap())
            .unwrap();
    let rows = result["results"]["bindings"].as_array().unwrap();
    assert_eq!(rows.len(), 1, "only alice: 30*2=60 > 40");
    assert_eq!(rows[0]["p"]["value"], "http://example.org/alice");
}

/// A BIND-computed value must intern to the *same* dictionary ID as an
/// identical existing value, so a subsequent join on the bound variable
/// against real triple data still matches (raw-ID equi-join, not just
/// value equality).
#[test]
fn bind_computed_value_joins_with_existing_data() {
    let mut store = TripleStore::new();
    // Arithmetic results are always `Fv::Num`, which BIND interns as
    // xsd:double (see `intern_fv`/`Function::Datatype`) — so the age
    // literal and the baseline literal must share that datatype for the
    // interned ID to line up with the pre-existing one.
    let dt = "http://www.w3.org/2001/XMLSchema#double";
    let alice = store.dict.insert("http://example.org/alice");
    let age = store.dict.insert("http://example.org/age");
    let refnode = store.dict.insert("http://example.org/baseline");
    let has_baseline = store.dict.insert("http://example.org/hasBaseline");
    let v25 = store
        .dict
        .insert_with_type("25", TermType::literal_datatype(dt.to_string()));
    store.insert_triple(alice, age, v25);
    store.insert_triple(refnode, has_baseline, v25);
    let engine = HybridEngine::new();
    let query = "SELECT ?p ?ref WHERE { \
                 ?p <http://example.org/age> ?a BIND(?a + 0 AS ?y) . \
                 ?ref <http://example.org/hasBaseline> ?y }";
    let result: Value =
        serde_json::from_str(&execute_sparql_bind(&mut store, &engine, query).unwrap())
            .unwrap();
    let rows = result["results"]["bindings"].as_array().unwrap();
    assert_eq!(rows.len(), 1);
    assert_eq!(rows[0]["ref"]["value"], "http://example.org/baseline");
}
