use serde_json::Value;
use trillian::hypertrie::{HybridEngine, TripleStore};
use trillian::sparql::numbers::{NumberCall, NumberReply};
use trillian::sparql::run::{self, Access, Tally};
use trillian::wal::Wal;

const EX: &str = "http://example.org/";
const XSD: &str = "http://www.w3.org/2001/XMLSchema#";

fn numbers(call: NumberCall) -> NumberReply {
    let of = |x: f64| NumberReply::Number(x.to_bits());
    match call {
        NumberCall::Parse(s) => match s.parse::<f64>() {
            Ok(n) => of(n),
            Err(_) => NumberReply::Nothing,
        },
        NumberCall::Plus(a, b) => of(f64::from_bits(a) + f64::from_bits(b)),
        NumberCall::Minus(a, b) => of(f64::from_bits(a) - f64::from_bits(b)),
        NumberCall::Times(a, b) => of(f64::from_bits(a) * f64::from_bits(b)),
        NumberCall::Divide(a, b) => of(f64::from_bits(a) / f64::from_bits(b)),
        NumberCall::Count(n) => of(n as f64),
        NumberCall::Text(n) => {
            let x = f64::from_bits(n);
            NumberReply::Text(if x.fract() == 0.0 && x.is_finite() {
                format!("{}", x as i64)
            } else {
                x.to_string()
            })
        }
    }
}

fn store_from_nt(nt: &str) -> TripleStore {
    let mut store = TripleStore::new();
    store.ingest_ntriples_file(nt).unwrap();
    store
}

fn scores() -> TripleStore {
    store_from_nt(&format!(
        "<{EX}alice> <{EX}score> \"7\"^^<{XSD}integer> .\n\
         <{EX}alice> <{EX}score> \"10\"^^<{XSD}integer> .\n\
         <{EX}bob> <{EX}score> \"5\"^^<{XSD}integer> .\n\
         <{EX}alice> <{EX}name> \"Alice\" .\n\
         <{EX}bob> <{EX}name> \"Bob\"@en .\n"
    ))
}

fn ask_bind(store: &mut TripleStore, q: &str) -> Result<Value, String> {
    let text = run::execute_sparql_bind(store, &HybridEngine::new(), q, &numbers)?;
    Ok(serde_json::from_str(&text).unwrap())
}

fn ask(store: &TripleStore, q: &str) -> Result<Value, String> {
    let text = run::execute_sparql(store, &HybridEngine::new(), q, &numbers)?;
    Ok(serde_json::from_str(&text).unwrap())
}

fn rows(v: &Value) -> &Vec<Value> {
    v["results"]["bindings"].as_array().unwrap()
}

// --- Aggregates ------------------------------------------------------------------

#[test]
fn sum_and_avg_are_doubles() {
    let mut store = scores();
    let v = ask_bind(
        &mut store,
        &format!("SELECT (SUM(?x) AS ?s) (AVG(?x) AS ?a) WHERE {{ <{EX}alice> <{EX}score> ?x }}"),
    )
    .unwrap();
    assert_eq!(rows(&v).len(), 1);
    assert_eq!(rows(&v)[0]["s"]["value"], "17");
    assert_eq!(rows(&v)[0]["s"]["datatype"], format!("{XSD}double"));
    assert_eq!(rows(&v)[0]["a"]["value"], "8.5");
    assert_eq!(rows(&v)[0]["a"]["datatype"], format!("{XSD}double"));
}

#[test]
fn sum_takes_an_expression() {
    let mut store = scores();
    let v = ask_bind(
        &mut store,
        &format!("SELECT (SUM(?x + 1) AS ?s) WHERE {{ <{EX}alice> <{EX}score> ?x }}"),
    )
    .unwrap();
    assert_eq!(rows(&v)[0]["s"]["value"], "19");
}

#[test]
fn sum_and_avg_over_nothing_are_zero() {
    let mut store = scores();
    let v = ask_bind(
        &mut store,
        &format!("SELECT (SUM(?x) AS ?s) (AVG(?x) AS ?a) WHERE {{ ?p <{EX}missing> ?x }}"),
    )
    .unwrap();
    assert_eq!(rows(&v)[0]["s"]["value"], "0");
    assert_eq!(rows(&v)[0]["s"]["datatype"], format!("{XSD}integer"));
    assert_eq!(rows(&v)[0]["a"]["value"], "0");
    assert_eq!(rows(&v)[0]["a"]["datatype"], format!("{XSD}integer"));
}

#[test]
fn group_concat_joins_with_its_separator() {
    let mut store = scores();
    let v = ask_bind(
        &mut store,
        &format!(
            "SELECT (GROUP_CONCAT(?x; SEPARATOR=\"|\") AS ?s) WHERE {{ \
             SELECT ?x WHERE {{ ?p <{EX}score> ?x }} ORDER BY ?x }}"
        ),
    )
    .unwrap();
    assert_eq!(rows(&v)[0]["s"]["value"], "5|7|10");
    assert!(rows(&v)[0]["s"].get("datatype").is_none());
    let none = ask_bind(
        &mut store,
        &format!("SELECT (GROUP_CONCAT(?x) AS ?s) WHERE {{ ?p <{EX}missing> ?x }}"),
    )
    .unwrap();
    assert_eq!(rows(&none)[0]["s"]["value"], "");
}

#[test]
fn min_of_an_expression_is_refused() {
    let mut store = scores();
    let e = ask_bind(
        &mut store,
        &format!("SELECT (MIN(?x + 1) AS ?s) WHERE {{ ?p <{EX}score> ?x }}"),
    )
    .unwrap_err();
    assert_eq!(e, "MIN needs a bare variable");
}

// --- Nested queries ----------------------------------------------------------------

#[test]
fn an_aggregate_of_a_nested_query_can_be_filtered_and_joined() {
    let mut store = scores();
    let v = ask_bind(
        &mut store,
        &format!(
            "SELECT ?s ?c ?n WHERE {{ \
             {{ SELECT ?s (COUNT(*) AS ?c) WHERE {{ ?s <{EX}score> ?x }} GROUP BY ?s }} \
             FILTER(?c > 1) . ?s <{EX}name> ?n }}"
        ),
    )
    .unwrap();
    assert_eq!(rows(&v).len(), 1);
    assert_eq!(rows(&v)[0]["s"]["value"], format!("{EX}alice"));
    assert_eq!(rows(&v)[0]["c"]["value"], "2");
    assert_eq!(rows(&v)[0]["n"]["value"], "Alice");
}

#[test]
fn variables_that_a_nested_query_hides_are_free_outside() {
    let store = scores();
    let v = ask(
        &store,
        &format!(
            "SELECT ?s ?x WHERE {{ {{ SELECT ?s WHERE {{ ?s <{EX}name> ?x }} }} \
             ?s <{EX}score> ?x }}"
        ),
    )
    .unwrap();
    assert_eq!(rows(&v).len(), 3);
}

#[test]
fn the_outer_projection_counts() {
    let store = scores();
    let v = ask(&store, "SELECT ?s WHERE { { SELECT * WHERE { ?s ?p ?o } } }").unwrap();
    assert_eq!(v["head"]["vars"].as_array().unwrap().len(), 1);
    assert_eq!(v["head"]["vars"][0], "s");
    assert_eq!(rows(&v).len(), 5);
}

#[test]
fn a_nested_limit_stays_inside() {
    let store = scores();
    let v = ask(
        &store,
        &format!(
            "SELECT ?s ?n WHERE {{ \
             {{ SELECT DISTINCT ?s WHERE {{ ?s <{EX}score> ?x }} ORDER BY ?s LIMIT 1 }} \
             ?s <{EX}name> ?n }}"
        ),
    )
    .unwrap();
    assert_eq!(rows(&v).len(), 1);
    assert_eq!(rows(&v)[0]["n"]["value"], "Alice");
}

// --- Optional parts ----------------------------------------------------------------

#[test]
fn a_filter_inside_an_optional_part_unbinds_only() {
    let store = scores();
    let inside = ask(
        &store,
        &format!(
            "SELECT ?s ?x WHERE {{ ?s <{EX}name> ?n \
             OPTIONAL {{ ?s <{EX}score> ?x FILTER(?x < 6) }} }}"
        ),
    )
    .unwrap();
    assert_eq!(rows(&inside).len(), 2);
    assert_eq!(rows(&inside).iter().filter(|r| r.get("x").is_some()).count(), 1);
    let after = ask(
        &store,
        &format!(
            "SELECT ?s ?x WHERE {{ ?s <{EX}name> ?n \
             OPTIONAL {{ ?s <{EX}score> ?x }} FILTER(?x < 6) }}"
        ),
    )
    .unwrap();
    assert_eq!(rows(&after).len(), 1);
}

#[test]
fn an_optional_part_without_common_variables_joins_by_its_filter() {
    let store = scores();
    let v = ask(
        &store,
        &format!(
            "SELECT ?b ?x WHERE {{ ?b <{EX}name> ?n \
             OPTIONAL {{ ?p <{EX}score> ?x FILTER(?p = ?b && ?x < 6) }} }}"
        ),
    )
    .unwrap();
    assert_eq!(rows(&v).len(), 2);
    let bob = rows(&v).iter().find(|r| r["b"]["value"] == format!("{EX}bob")).unwrap();
    assert_eq!(bob["x"]["value"], "5");
    let alice = rows(&v).iter().find(|r| r["b"]["value"] == format!("{EX}alice")).unwrap();
    assert!(alice.get("x").is_none());
}

#[test]
fn an_unknown_construct_inside_an_optional_part_is_named() {
    let store = scores();
    let e = ask(
        &store,
        &format!(
            "SELECT ?s WHERE {{ ?s <{EX}name> ?n \
             OPTIONAL {{ ?s <{EX}score> ?x FILTER(EXISTS {{ ?s <{EX}name> ?m }}) }} }}"
        ),
    )
    .unwrap_err();
    assert_eq!(e, "Unsupported expression in a FILTER inside OPTIONAL: EXISTS");
    let e = ask(
        &store,
        &format!(
            "SELECT ?s WHERE {{ ?s <{EX}name> ?n \
             OPTIONAL {{ ?s <{EX}score> ?x FILTER(ABS(?x) > 1) }} }}"
        ),
    )
    .unwrap_err();
    assert_eq!(e, "Unsupported expression in a FILTER inside OPTIONAL: ABS");
}

#[test]
fn an_unknown_construct_in_a_plain_filter_drops_rows() {
    let store = scores();
    let v = ask(
        &store,
        &format!("SELECT ?s WHERE {{ ?s <{EX}score> ?x FILTER(ABS(?x) > 1) }}"),
    )
    .unwrap();
    assert_eq!(rows(&v).len(), 0);
}

// --- Texts -------------------------------------------------------------------------

#[test]
fn case_and_length_of_texts() {
    let store = scores();
    let n = |f: &str| {
        let v = ask(&store, &format!("SELECT ?s WHERE {{ ?s <{EX}name> ?n FILTER({f}) }}")).unwrap();
        rows(&v).len()
    };
    assert_eq!(n("UCASE(?n) = \"ALICE\""), 1);
    assert_eq!(n("LCASE(?n) = \"alice\""), 1);
    assert_eq!(n("STRLEN(?n) = 5"), 1);
    assert_eq!(n("STRSTARTS(?n, \"A\")"), 1);
    assert_eq!(n("STRENDS(?n, \"ob\")"), 1);
    assert_eq!(n("CONTAINS(?n, \"li\")"), 1);
    assert_eq!(n("LANG(?n) = \"en\""), 1);
    assert_eq!(n("isLiteral(?n)"), 2);
    assert_eq!(n("isIRI(?n)"), 0);
    assert_eq!(n("DATATYPE(?n) = <http://www.w3.org/2001/XMLSchema#string>"), 1);
}

#[test]
fn regex_switches() {
    let store = store_from_nt(&format!("<{EX}a> <{EX}t> \"one\\ntwo\" .\n"));
    let n = |f: &str| {
        let v = ask(&store, &format!("SELECT ?s WHERE {{ ?s <{EX}t> ?t FILTER({f}) }}")).unwrap();
        rows(&v).len()
    };
    assert_eq!(n("REGEX(?t, \"ONE\")"), 0);
    assert_eq!(n("REGEX(?t, \"ONE\", \"i\")"), 1);
    assert_eq!(n("REGEX(?t, \"one.two\")"), 0);
    assert_eq!(n("REGEX(?t, \"one.two\", \"s\")"), 1);
    assert_eq!(n("REGEX(?t, \"^two\")"), 0);
    assert_eq!(n("REGEX(?t, \"^two\", \"m\")"), 1);
    assert_eq!(n("REGEX(?t, \"ONE.TWO\", \"is\")"), 1);
}

// --- Requests ----------------------------------------------------------------------

#[test]
fn only_some_query_forms_are_supported() {
    let store = scores();
    assert_eq!(
        ask(&store, "CONSTRUCT WHERE { ?s ?p ?o }").unwrap_err(),
        "Only SELECT and ASK queries are supported"
    );
    assert_eq!(
        run::execute_count(&store, &HybridEngine::new(), "CONSTRUCT WHERE { ?s ?p ?o }", false, &numbers)
            .unwrap_err(),
        "Only SELECT and ASK queries are supported for /count"
    );
    assert!(ask(&store, "SELECT nonsense").is_err());
}

#[test]
fn unsupported_patterns_are_refused() {
    let mut store = scores();
    let minus = format!("SELECT ?s WHERE {{ ?s ?p ?o MINUS {{ ?s <{EX}name> ?n }} }}");
    assert_eq!(
        ask(&store, &minus).unwrap_err(),
        "Unsupported WHERE pattern (only BGP/FILTER/OPTIONAL/UNION/Join/Path)"
    );
    assert_eq!(
        ask_bind(&mut store, &minus).unwrap_err(),
        "Unsupported WHERE pattern (only BGP/FILTER/OPTIONAL/UNION/Join/Path/BIND)"
    );
}

#[test]
fn counting() {
    let mut store = scores();
    let engine = HybridEngine::new();
    let q = format!("SELECT ?s WHERE {{ ?s <{EX}score> ?x }}");
    assert!(matches!(
        run::execute_count(&store, &engine, &q, false, &numbers),
        Ok(Tally::Count(3))
    ));
    assert!(matches!(
        run::execute_count_bind(&mut store, &engine, &q, &numbers),
        Ok(Tally::Count(3))
    ));
    let yes = format!("ASK {{ ?s <{EX}score> ?x }}");
    assert!(matches!(
        run::execute_count(&store, &engine, &yes, false, &numbers),
        Ok(Tally::Boolean(true))
    ));
}

#[test]
fn the_way_of_running_a_query() {
    let bind = format!("SELECT ?y WHERE {{ ?s <{EX}score> ?x BIND(?x + 1 AS ?y) }}");
    let plain = format!("SELECT ?x WHERE {{ ?s <{EX}score> ?x }}");
    assert_eq!(run::choose_access(None, &bind), Access::Write);
    assert_eq!(run::choose_access(None, &plain), Access::Read);
    assert_eq!(run::choose_access(Some("rdfs"), &bind), Access::Infer);
    assert_eq!(run::choose_access(Some("other"), &plain), Access::Read);
}

#[test]
fn too_many_rows_are_an_error() {
    let store = scores();
    let engine = HybridEngine { max_rows: 2 };
    let q = format!("SELECT ?s WHERE {{ ?s <{EX}score> ?x }}");
    assert_eq!(
        run::execute_sparql(&store, &engine, &q, &numbers).unwrap_err(),
        "result exceeds 2 rows (likely an unbounded/cross-product query); \
         raise TRILLIAN_MAX_ROWS to allow"
    );
    let q = format!("SELECT ?s WHERE {{ ?s <{EX}name> ?x }}");
    assert!(run::execute_sparql(&store, &engine, &q, &numbers).is_ok());
    let q = format!("SELECT * WHERE {{ {{ ?s <{EX}name> ?x }} UNION {{ ?s <{EX}name> ?x }} }}");
    assert_eq!(
        run::execute_sparql(&store, &engine, &q, &numbers).unwrap_err(),
        "result exceeds 2 rows (join/union/path materialization); \
         raise TRILLIAN_MAX_ROWS to allow"
    );
}

// --- Updates -----------------------------------------------------------------------

#[test]
fn refused_updates_change_nothing() {
    let mut store = scores();
    let before = store.dump_ntriples();
    let mut wal = Wal::new(store.dict.len());
    assert_eq!(
        run::execute_update(&mut store, "INSERT DATA { _:b <http://e/p> <http://e/o> }", &mut wal)
            .unwrap_err(),
        "Blank nodes in updates are not supported"
    );
    assert_eq!(
        run::execute_update(&mut store, "DELETE WHERE { ?s ?p ?o }", &mut wal).unwrap_err(),
        "Only INSERT DATA and DELETE DATA are supported"
    );
    assert!(run::execute_update(&mut store, "INSERT nonsense", &mut wal).is_err());
    assert!(wal.pending.is_empty());
    assert_eq!(store.dump_ntriples(), before);
}

#[test]
fn an_update_survives_a_restart() {
    let mut store = scores();
    let snapshot = store.save_snapshot();
    let mut wal = Wal::new(store.dict.len());
    run::execute_update(
        &mut store,
        &format!(
            "INSERT DATA {{ <{EX}carol> <{EX}name> \"Carol\"@de }} ; \
             DELETE DATA {{ <{EX}bob> <{EX}name> \"Bob\"@en }}"
        ),
        &mut wal,
    )
    .unwrap();
    let mut again = TripleStore::load_snapshot(snapshot).unwrap();
    let replay = Wal::replay(&wal.pending, &mut again).unwrap();
    assert_eq!(replay.applied, 2);
    assert_eq!(replay.discarded, 0);
    assert_eq!(again.dump_ntriples(), store.dump_ntriples());
}

#[test]
fn terms_that_a_query_added_are_logged_with_the_next_update() {
    let mut store = scores();
    let snapshot = store.save_snapshot();
    let mut wal = Wal::new(store.dict.len());
    ask_bind(
        &mut store,
        &format!("SELECT ?y WHERE {{ ?s <{EX}score> ?x BIND(?x * 3 AS ?y) }}"),
    )
    .unwrap();
    run::execute_update(&mut store, "INSERT DATA { <http://e/s> <http://e/p> <http://e/o> }", &mut wal)
        .unwrap();
    let mut again = TripleStore::load_snapshot(snapshot).unwrap();
    Wal::replay(&wal.pending, &mut again).unwrap();
    assert_eq!(again.dict.len(), store.dict.len());
    assert_eq!(again.dump_ntriples(), store.dump_ntriples());
}

#[test]
fn the_bytes_of_a_logged_update() {
    let mut store = scores();
    let alice = store.dict.lookup_iri(&format!("{EX}alice")).unwrap();
    let name = store.dict.lookup_iri(&format!("{EX}name")).unwrap();
    let n = store.dict.len() as u32;
    let mut wal = Wal::new(store.dict.len());
    run::execute_update(
        &mut store,
        &format!(
            "INSERT DATA {{ <{EX}alice> <{EX}name> \"Ally\" . <{EX}dan> <{EX}name> \"Ally\" }} ; \
             DELETE DATA {{ <{EX}alice> <{EX}name> \"Alice\" . <{EX}nobody> <{EX}name> \"x\" }}"
        ),
        &mut wal,
    )
    .unwrap();
    let op = |tag: u8, s: u32, p: u32, o: u32| {
        let mut r = vec![tag];
        for id in [s, p, o] {
            r.extend_from_slice(&id.to_le_bytes());
        }
        r
    };
    let text = |s: &str| {
        let mut r = (s.len() as u32).to_le_bytes().to_vec();
        r.extend_from_slice(s.as_bytes());
        r
    };
    let old = store
        .dict
        .lookup_term("Alice", &trillian::hypertrie::TermType::literal_plain())
        .unwrap();
    // A new term stands right before the change that brought it.
    let want = [
        vec![2],
        text("Ally"),
        vec![4],
        text(&format!("{XSD}string")),
        op(0, alice, name, n),
        vec![2],
        text(&format!("{EX}dan")),
        vec![0],
        op(0, n + 1, name, n),
        op(1, alice, name, old),
    ]
    .concat();
    assert_eq!(wal.pending, want);
}

// --- Inference ---------------------------------------------------------------------

#[test]
fn domain_and_range_give_types() {
    let rdfs = "http://www.w3.org/2000/01/rdf-schema#";
    let ty = "http://www.w3.org/1999/02/22-rdf-syntax-ns#type";
    let store = store_from_nt(&format!(
        "<{EX}owns> <{rdfs}domain> <{EX}Person> .\n\
         <{EX}owns> <{rdfs}range> <{EX}Thing> .\n\
         <{EX}rents> <{rdfs}subPropertyOf> <{EX}owns> .\n\
         <{EX}Person> <{rdfs}subClassOf> <{EX}Agent> .\n\
         <{EX}ann> <{EX}rents> <{EX}car> .\n"
    ));
    let infer = |class: &str| {
        let q = format!("SELECT ?s WHERE {{ ?s <{ty}> <{EX}{class}> }}");
        let text =
            run::execute_sparql_infer(&store, &HybridEngine::new(), &q, &numbers).unwrap();
        let v: Value = serde_json::from_str(&text).unwrap();
        rows(&v).iter().map(|r| r["s"]["value"].as_str().unwrap().to_string()).collect::<Vec<_>>()
    };
    assert_eq!(infer("Person"), vec![format!("{EX}ann")]);
    assert_eq!(infer("Agent"), vec![format!("{EX}ann")]);
    assert_eq!(infer("Thing"), vec![format!("{EX}car")]);
}

#[test]
fn inference_keeps_what_is_stored() {
    let store = scores();
    let q = format!("SELECT ?s ?x WHERE {{ ?s <{EX}score> ?x }}");
    let plain = ask(&store, &q).unwrap();
    let text = run::execute_sparql_infer(&store, &HybridEngine::new(), &q, &numbers).unwrap();
    let more: Value = serde_json::from_str(&text).unwrap();
    for r in rows(&plain) {
        assert!(rows(&more).contains(r));
    }
}

#[test]
fn inference_gives_the_entailed_rows_each_once() {
    let rdfs = "http://www.w3.org/2000/01/rdf-schema#";
    let ty = "http://www.w3.org/1999/02/22-rdf-syntax-ns#type";
    let store = store_from_nt(&format!(
        "<{EX}Cat> <{rdfs}subClassOf> <{EX}Pet> .\n\
         <{EX}Pet> <{rdfs}subClassOf> <{EX}Animal> .\n\
         <{EX}feeds> <{rdfs}subPropertyOf> <{EX}knows> .\n\
         <{EX}feeds> <{rdfs}range> <{EX}Pet> .\n\
         <{EX}tom> <{ty}> <{EX}Cat> .\n\
         <{EX}tom> <{ty}> <{EX}Animal> .\n\
         <{EX}rex> <{EX}barks> <{EX}loud> .\n\
         <{EX}ann> <{EX}feeds> <{EX}tom> .\n\
         <{EX}bob> <{EX}knows> <{EX}tom> .\n"
    ));
    let infer = |pattern: &str| {
        let q = format!("SELECT * WHERE {{ {pattern} }}");
        let text = run::execute_sparql_infer(&store, &HybridEngine::new(), &q, &numbers).unwrap();
        let v: Value = serde_json::from_str(&text).unwrap();
        rows(&v).len()
    };
    // Stored, by a subclass and by a range: still one row.
    assert_eq!(infer(&format!("?x <{ty}> <{EX}Animal>")), 1);
    assert_eq!(infer(&format!("<{EX}rex> <{ty}> ?c")), 0);
    assert_eq!(infer(&format!("<{EX}tom> <{ty}> ?c")), 3);
    // A sub-property gives a triple of its own.
    assert_eq!(infer(&format!("?a <{EX}knows> <{EX}tom>")), 2);
    // One triple is inferred, the other stored.
    assert_eq!(infer(&format!("?a <{EX}feeds> ?x . ?x <{ty}> <{EX}Pet>")), 1);
    assert_eq!(infer(&format!("?a <{EX}knows> ?x . ?x <{ty}> <{EX}Cat>")), 2);
    // Two triples are never inferred at once.
    assert_eq!(infer(&format!("<{EX}ann> <{EX}knows> ?x . ?x <{ty}> <{EX}Pet>")), 0);
}

#[test]
fn an_empty_schema_stops_before_the_data() {
    let store = scores();
    let engine = HybridEngine { max_rows: 3 };
    let ty = "http://www.w3.org/1999/02/22-rdf-syntax-ns#type";
    // Without a schema nothing is inferred; the data of the alternatives, all five
    // triples, would be too many rows.
    let q = format!("SELECT ?x WHERE {{ ?x <{ty}> <{EX}Person> }}");
    let text = run::execute_sparql_infer(&store, &engine, &q, &numbers).unwrap();
    assert!(rows(&serde_json::from_str(&text).unwrap()).is_empty());
    let q = format!("SELECT ?s WHERE {{ ?s <{EX}score> ?x }}");
    let text = run::execute_sparql_infer(&store, &engine, &q, &numbers).unwrap();
    assert_eq!(rows(&serde_json::from_str(&text).unwrap()).len(), 3);
    // The same without inference, with all columns.
    let q = format!("SELECT * WHERE {{ <{EX}alice> <{EX}none>+ ?a . {{ ?s ?p ?o }} }}");
    let text = run::execute_sparql(&store, &engine, &q, &numbers).unwrap();
    let v: Value = serde_json::from_str(&text).unwrap();
    assert!(rows(&v).is_empty());
    assert!(run::execute_sparql(&store, &engine, "SELECT * WHERE { ?s ?p ?o }", &numbers).is_err());
    // What cannot be evaluated is still reported.
    let q = format!("SELECT * WHERE {{ <{EX}alice> <{EX}none>+ ?a . {{ ?s ?p ?o MINUS {{ ?s ?p ?o }} }} }}");
    assert!(run::execute_sparql(&store, &engine, &q, &numbers).is_err());
}

#[test]
fn a_repeated_variable_and_an_empty_group() {
    let mut store = store_from_nt(&format!(
        "<{EX}a> <{EX}p> <{EX}b> .\n<{EX}b> <{EX}p> <{EX}b> .\n<{EX}b> <{EX}q> <{EX}b> .\n\
         <{EX}a> <{EX}q> <{EX}c> .\n"
    ));
    let n = |store: &TripleStore, pattern: &str| {
        rows(&ask(store, &format!("SELECT * WHERE {{ {pattern} }}")).unwrap()).len()
    };
    assert_eq!(n(&store, &format!("?x <{EX}p> ?x")), 1);
    assert_eq!(n(&store, &format!("?x <{EX}p> ?y . ?x <{EX}q> ?x")), 1);
    assert_eq!(n(&store, "?x ?p ?x"), 2);
    assert_eq!(n(&store, &format!("_:n <{EX}p> _:n")), 1);
    // Nothing is asked for: one solution, in which nothing is bound.
    assert_eq!(n(&store, ""), 1);
    assert_eq!(n(&store, &format!("OPTIONAL {{ ?x <{EX}q> ?y }}")), 2);
    assert_eq!(n(&store, &format!("OPTIONAL {{ ?x <{EX}none> ?y }}")), 1);
    assert_eq!(ask(&store, "ASK {}").unwrap()["boolean"], Value::Bool(true));
    let v = ask_bind(&mut store, "SELECT ?x WHERE { BIND(1 AS ?x) }").unwrap();
    assert_eq!(rows(&v).len(), 1);
    assert_eq!(rows(&v)[0]["x"]["value"], Value::String("1".to_string()));
}

#[test]
fn joins_and_unions_by_columns() {
    let store = store_from_nt(&format!(
        "<{EX}a> <{EX}p> <{EX}b> .\n<{EX}b> <{EX}p> <{EX}c> .\n<{EX}a> <{EX}q> <{EX}c> .\n"
    ));
    let n = |pattern: &str| {
        rows(&ask(&store, &format!("SELECT * WHERE {{ {pattern} }}")).unwrap()).len()
    };
    let p = format!("<{EX}p>");
    let q = format!("<{EX}q>");
    // A shared column must agree, others are free.
    assert_eq!(n(&format!("{{ ?x {p}+ ?y }} {{ ?y {p} ?z }}")), 1);
    assert_eq!(n(&format!("{{ ?x {p}+ ?y }} {{ ?u {p} ?z }}")), 6);
    assert_eq!(n(&format!("{{ ?x {p}+ ?y }} {{ ?x {q} ?y }}")), 1);
    // A union shows what either side shows.
    assert_eq!(n(&format!("{{ ?x {p} ?y }} UNION {{ ?x {q} ?z }}")), 3);
}

// --- Limits ------------------------------------------------------------------------

#[test]
fn a_limit_gives_the_first_rows() {
    let store = scores();
    let all = ask(&store, &format!("SELECT ?s ?x WHERE {{ ?s <{EX}score> ?x }}")).unwrap();
    for k in 0..4 {
        let some = ask(
            &store,
            &format!("SELECT ?s ?x WHERE {{ ?s <{EX}score> ?x }} LIMIT {k}"),
        )
        .unwrap();
        let n = std::cmp::min(k, rows(&all).len());
        assert_eq!(rows(&some)[..], rows(&all)[..n]);
    }
}

#[test]
fn order_is_numeric_and_stable() {
    let store = scores();
    let v = ask(
        &store,
        &format!("SELECT ?x WHERE {{ ?s <{EX}score> ?x }} ORDER BY DESC(?x) OFFSET 1"),
    )
    .unwrap();
    let got: Vec<&str> = rows(&v).iter().map(|r| r["x"]["value"].as_str().unwrap()).collect();
    assert_eq!(got, vec!["7", "5"]);
}

// --- Paths -------------------------------------------------------------------------

#[test]
fn negated_and_reverse_paths() {
    let store = scores();
    let n = |p: &str| {
        let v = ask(&store, &format!("SELECT ?a ?b WHERE {{ ?a {p} ?b }}")).unwrap();
        rows(&v).len()
    };
    assert_eq!(n(&format!("!<{EX}name>")), 3);
    assert_eq!(n(&format!("!(<{EX}name>|<{EX}score>)")), 0);
    assert_eq!(n(&format!("^<{EX}name>")), 2);
    assert_eq!(n(&format!("<{EX}score>|<{EX}name>")), 5);
}

#[test]
fn a_reverse_path_walks_the_other_way() {
    let store = scores();
    let forward = ask(&store, &format!("SELECT ?a ?b WHERE {{ ?a <{EX}score>+ ?b }} ORDER BY ?a ?b")).unwrap();
    let back =
        ask(&store, &format!("SELECT ?a ?b WHERE {{ ?b ^(<{EX}score>+) ?a }} ORDER BY ?a ?b")).unwrap();
    assert_eq!(rows(&forward), rows(&back));
}

// --- What holds across functions -----------------------------------------------------

#[test]
fn all_ways_of_asking_agree() {
    let mut store = scores();
    let engine = HybridEngine::new();
    let q = format!("SELECT ?s ?x WHERE {{ ?s <{EX}score> ?x }} ORDER BY ?x");
    let read = run::execute_sparql(&store, &engine, &q, &numbers).unwrap();
    let table = run::select_rows(&store, &engine, &q, false, &numbers).unwrap();
    let v: Value = serde_json::from_str(&read).unwrap();
    assert_eq!(table.rows.n_rows(), rows(&v).len());
    assert!(matches!(
        run::execute_count(&store, &engine, &q, false, &numbers),
        Ok(Tally::Count(n)) if n == rows(&v).len()
    ));
    // A query that adds no terms gives the same either way.
    let before = store.dict.len();
    assert_eq!(run::execute_sparql_bind(&mut store, &engine, &q, &numbers).unwrap(), read);
    assert_eq!(store.dict.len(), before);
    let table = run::select_rows_bind(&mut store, &engine, &q, &numbers).unwrap();
    assert_eq!(table.rows.n_rows(), 3);
}

#[test]
fn identifiers_stay_when_terms_come() {
    let mut store = scores();
    let keys: Vec<String> =
        (0..store.dict.len() as u32).map(|i| store.dict.raw_key(i).unwrap().to_string()).collect();
    ask_bind(
        &mut store,
        &format!("SELECT ?y WHERE {{ ?s <{EX}score> ?x BIND(?x * 1000 AS ?y) }}"),
    )
    .unwrap();
    assert!(store.dict.len() > keys.len());
    for (i, k) in keys.iter().enumerate() {
        assert_eq!(store.dict.raw_key(i as u32), Some(k.as_str()));
    }
}

#[test]
fn comparisons_swap_with_their_operands() {
    let store = scores();
    let n = |f: &str| {
        let v = ask(&store, &format!("SELECT ?s WHERE {{ ?s <{EX}score> ?x FILTER({f}) }}")).unwrap();
        rows(&v).len()
    };
    assert_eq!(n("?x > 6"), n("6 < ?x"));
    assert_eq!(n("?x >= 7"), n("7 <= ?x"));
    assert_eq!(n("-?x < -6"), n("?x > 6"));
    assert_eq!(n("+?x = ?x"), 3);
    assert_eq!(n("!(?x > 6)"), n("?x <= 6"));
    assert_eq!(n("?x - 2 = 5"), 1);
    assert_eq!(n("?x / 2 = 3.5"), 1);
    assert_eq!(n("IF(?x > 6, true, false)"), 2);
    assert_eq!(n("?x NOT IN (5, 7)"), 1);
}

#[test]
fn an_update_twice_is_an_update_once() {
    let mut store = scores();
    let mut wal = Wal::new(store.dict.len());
    let u = format!(
        "INSERT DATA {{ <{EX}x> <{EX}y> <{EX}z> }} ; DELETE DATA {{ <{EX}alice> <{EX}name> \"Alice\" }}"
    );
    run::execute_update(&mut store, &u, &mut wal).unwrap();
    let once = store.dump_ntriples();
    run::execute_update(&mut store, &u, &mut wal).unwrap();
    assert_eq!(store.dump_ntriples(), once);
}

#[test]
fn operations_take_effect_in_their_order() {
    let t = format!("<{EX}n> <{EX}n> <{EX}n>");
    let insert = format!("INSERT DATA {{ {t} }}");
    let delete = format!("DELETE DATA {{ {t} }}");
    for (text, there) in [
        (format!("{insert} ; {delete}"), false),
        (format!("{delete} ; {insert}"), true),
        (format!("{insert} ; {delete} ; {insert}"), true),
        (format!("{delete} ; {insert} ; {delete}"), false),
    ] {
        let mut store = scores();
        let n = store.triple_count();
        let snapshot = store.save_snapshot();
        let mut wal = Wal::new(store.dict.len());
        run::execute_update(&mut store, &text, &mut wal).unwrap();
        assert_eq!(store.dump_ntriples().contains(&format!("{t} .")), there, "{text}");
        assert_eq!(store.triple_count(), n + there as usize);
        // A restart leads to the same triples and identifiers.
        let mut again = TripleStore::load_snapshot(snapshot).unwrap();
        Wal::replay(&wal.pending, &mut again).unwrap();
        assert_eq!(again.dump_ntriples(), store.dump_ntriples());
        assert_eq!(again.dict.len(), store.dict.len());
    }
}
