use trillian::hypertrie::dictionary::{decode_type, decode_value, encode_key, fold_iri, unfold_iri, DictError};
use trillian::hypertrie::executor::{execute_plan, wcoj_branch, wcoj_first_values};
use trillian::hypertrie::export::export_ntriples;
use trillian::hypertrie::relation::PredicateRelation;
use trillian::hypertrie::snapshot::SnapshotError;
use trillian::hypertrie::stats::{estimate_cardinality, CardEstimator, Stats};
use trillian::hypertrie::{
    execute_wcoj, max_result_rows, parse_ntriples, ExecutionPlan, GraphPattern, HybridEngine,
    PatternTerm, QueryResult, RowBlock, Term, TermType, TriplePattern, TripleStore, Var,
};
use trillian::synthetic::{generate, plant, SyntheticParams};
use trillian::wal::Wal;

fn var(name: &str) -> PatternTerm {
    PatternTerm::Variable(name.to_string())
}

fn pattern(s: PatternTerm, p: u32, o: PatternTerm) -> TriplePattern {
    TriplePattern {
        subject: s,
        predicate: PatternTerm::Bound(p),
        object: o,
    }
}

fn sorted_rows(b: &RowBlock) -> Vec<Vec<u32>> {
    let mut out: Vec<Vec<u32>> = (0..b.n_rows()).map(|i| b.row(i).to_vec()).collect();
    out.sort();
    out
}

fn graph() -> TripleStore {
    let mut store = TripleStore::new();
    store.ingest_str_triples(&[
        ("a", "p", "b"),
        ("b", "p", "c"),
        ("c", "p", "a"),
        ("a", "p", "d"),
        ("d", "p", "a"),
        ("b", "q", "d"),
    ]);
    store
}

// --- Joins -------------------------------------------------------------------------

#[test]
fn both_ways_of_joining_give_the_same_rows() {
    let store = graph();
    let p = store.dict.lookup_iri("p").unwrap();
    let triangle = GraphPattern {
        patterns: vec![
            pattern(var("x"), p, var("y")),
            pattern(var("y"), p, var("z")),
            pattern(var("z"), p, var("x")),
        ],
    };
    let a = execute_wcoj(&store, &triangle, max_result_rows(None)).unwrap();
    let b = execute_plan(&store, &triangle, &ExecutionPlan::naive(3), max_result_rows(None)).unwrap();
    let c = HybridEngine::new().execute(&store, &triangle).unwrap();
    assert_eq!(sorted_rows(&a), sorted_rows(&b));
    assert_eq!(sorted_rows(&a), sorted_rows(&c));
    assert_eq!(a.n_rows(), 3);
    // The setting bounds both.
    let two = max_result_rows(Some("2"));
    assert!(execute_wcoj(&store, &triangle, two).is_err());
    assert!(execute_plan(&store, &triangle, &ExecutionPlan::naive(3), two).is_err());
    let five = max_result_rows(Some("5"));
    assert_eq!(execute_plan(&store, &triangle, &ExecutionPlan::naive(3), five).unwrap().n_rows(), 3);
}

#[test]
fn a_variable_that_occurs_twice_has_one_value() {
    let mut store = TripleStore::new();
    store.ingest_str_triples(&[
        ("a", "p", "b"),
        ("b", "p", "b"),
        ("b", "p", "c"),
        ("d", "p", "d"),
        ("b", "q", "b"),
        ("a", "q", "d"),
        ("p", "p", "c"),
        ("r", "r", "r"),
        ("d", "r", "d"),
    ]);
    let id = |n: &str| store.dict.lookup_iri(n).unwrap();
    let rows = max_result_rows(None);
    let run = |patterns: Vec<TriplePattern>| {
        let n = patterns.len();
        let g = GraphPattern { patterns };
        let a = execute_plan(&store, &g, &ExecutionPlan::naive(n), rows).unwrap();
        let b = HybridEngine::new().execute(&store, &g).unwrap();
        assert_eq!(sorted_rows(&a), sorted_rows(&b));
        sorted_rows(&a)
    };
    let sorted = |mut list: Vec<Vec<u32>>| {
        list.sort();
        list
    };
    // Subject and object, by a plan and by the join that goes by columns.
    let both = sorted(vec![vec![id("b")], vec![id("d")]]);
    assert_eq!(run(vec![pattern(var("x"), id("p"), var("x"))]), both);
    let g = GraphPattern { patterns: vec![pattern(var("x"), id("p"), var("x"))] };
    assert_eq!(sorted_rows(&execute_wcoj(&store, &g, rows).unwrap()), both);
    assert!(run(vec![pattern(var("x"), id("p"), var("x")), pattern(var("x"), id("q"), var("x"))])
        == vec![vec![id("b")]]);
    // The order of the patterns does not matter.
    let one = pattern(var("x"), id("p"), var("y"));
    let loop_q = pattern(var("x"), id("q"), var("x"));
    let want = sorted(vec![vec![id("b"), id("b")], vec![id("b"), id("c")]]);
    assert_eq!(run(vec![one.clone(), loop_q.clone()]), want);
    assert_eq!(run(vec![loop_q.clone(), one.clone()]), want);
    let g = GraphPattern { patterns: vec![one, loop_q] };
    assert_eq!(sorted_rows(&execute_wcoj(&store, &g, rows).unwrap()), want);
    // Subject and predicate, predicate and object, all three.
    let triple = |s: PatternTerm, p: PatternTerm, o: PatternTerm| TriplePattern {
        subject: s,
        predicate: p,
        object: o,
    };
    assert_eq!(
        run(vec![triple(var("x"), var("x"), var("o"))]),
        sorted(vec![vec![id("p"), id("c")], vec![id("r"), id("r")]])
    );
    assert_eq!(run(vec![triple(var("s"), var("x"), var("x"))]), vec![vec![id("r"), id("r")]]);
    assert_eq!(run(vec![triple(var("x"), var("x"), PatternTerm::Bound(id("c")))]), vec![vec![id("p")]]);
    assert_eq!(run(vec![triple(PatternTerm::Bound(id("r")), var("x"), var("x"))]), vec![vec![id("r")]]);
    assert_eq!(run(vec![triple(var("x"), var("x"), var("x"))]), vec![vec![id("r")]]);
    assert_eq!(run(vec![triple(var("x"), var("y"), var("x"))]).len(), 5);
}

#[test]
fn a_pattern_without_triples_has_one_solution() {
    let store = graph();
    let g = GraphPattern { patterns: vec![] };
    for b in [
        execute_plan(&store, &g, &ExecutionPlan::naive(0), 10).unwrap(),
        HybridEngine::new().execute(&store, &g).unwrap(),
        execute_wcoj(&store, &g, 10).unwrap(),
    ] {
        assert_eq!(sorted_rows(&b), vec![Vec::<u32>::new()]);
    }
    assert!(execute_plan(&store, &g, &ExecutionPlan::naive(0), 0).is_err());
    // A plan that leaves the patterns out gives nothing.
    let p = store.dict.lookup_iri("p").unwrap();
    let g = GraphPattern { patterns: vec![pattern(var("x"), p, var("y"))] };
    assert_eq!(execute_plan(&store, &g, &ExecutionPlan::naive(0), 10).unwrap().n_rows(), 0);
}

#[test]
fn the_plan_takes_the_cheapest_connected_pattern_first() {
    let store = graph();
    let p = store.dict.lookup_iri("p").unwrap();
    let q = store.dict.lookup_iri("q").unwrap();
    let order = |ps: Vec<TriplePattern>| {
        let plan = GraphPattern { patterns: ps }.optimize(&store.index);
        plan.steps.iter().map(|s| s.pattern_index).collect::<Vec<_>>()
    };
    // The one with `q` is cheapest; of the two equal ones the earlier comes next.
    assert_eq!(
        order(vec![
            pattern(var("x"), p, var("y")),
            pattern(var("y"), p, var("z")),
            pattern(var("y"), q, var("w")),
        ]),
        vec![2, 0, 1]
    );
    // A connected pattern comes before a cheaper one that is not connected.
    assert_eq!(
        order(vec![
            pattern(var("x"), p, var("y")),
            pattern(var("u"), q, var("v")),
            pattern(var("y"), q, var("w")),
        ]),
        vec![1, 2, 0]
    );
}

#[test]
fn branches_make_up_the_whole_join() {
    let store = graph();
    let p = store.dict.lookup_iri("p").unwrap();
    let cycle = GraphPattern {
        patterns: vec![pattern(var("x"), p, var("y")), pattern(var("y"), p, var("x"))],
    };
    let whole = execute_wcoj(&store, &cycle, max_result_rows(None)).unwrap();
    let mut parts = RowBlock::new(2);
    for v in wcoj_first_values(&store, &cycle) {
        parts.append(&wcoj_branch(&store, &cycle, v, usize::MAX));
    }
    assert_eq!(sorted_rows(&whole), sorted_rows(&parts));
    assert_eq!(whole.n_rows(), 2);
}

#[test]
fn estimates_come_from_the_counts() {
    let mut stats = Stats::default();
    stats.total_triples = 9;
    stats.subject_degree.insert(1, 4);
    stats.object_degree.insert(3, 2);
    stats.spo_pair_count.insert(trillian::fxmap::pair_key(1, 2), 7);
    let b = |n: u32| PatternTerm::Bound(n);
    assert_eq!(estimate_cardinality(&stats, &b(1), &b(2), &b(3)), 1);
    assert_eq!(estimate_cardinality(&stats, &b(1), &b(2), &var("o")), 7);
    assert_eq!(estimate_cardinality(&stats, &var("s"), &b(2), &b(3)), 0);
    assert_eq!(estimate_cardinality(&stats, &b(1), &var("p"), &var("o")), 4);
    assert_eq!(estimate_cardinality(&stats, &var("s"), &var("p"), &b(3)), 2);
    assert_eq!(estimate_cardinality(&stats, &var("s"), &var("p"), &var("o")), 9);
    assert_eq!(stats.os(3, 1), 0);
}

#[test]
fn row_bound_setting() {
    assert_eq!(max_result_rows(Some("12")), 12);
    assert_eq!(max_result_rows(Some("+12")), 12);
    assert_eq!(max_result_rows(Some("-1")), max_result_rows(None));
}

// --- Store -------------------------------------------------------------------------

#[test]
fn every_shape_of_query() {
    let store = graph();
    let id = |n: &str| store.dict.lookup_iri(n).unwrap();
    let (a, b, c, d, p, q) = (id("a"), id("b"), id("c"), id("d"), id("p"), id("q"));
    match store.query(Term::Bound(a), Term::Wildcard, Term::Wildcard) {
        QueryResult::Double(Var::P, Var::O, v) => assert_eq!(v, vec![(p, b), (p, d)]),
        _ => panic!("expected pairs"),
    }
    match store.query(Term::Wildcard, Term::Bound(q), Term::Wildcard) {
        QueryResult::Double(Var::O, Var::S, v) => assert_eq!(v, vec![(d, b)]),
        _ => panic!("expected pairs"),
    }
    match store.query(Term::Wildcard, Term::Wildcard, Term::Bound(a)) {
        QueryResult::Double(Var::S, Var::P, v) => assert_eq!(v, vec![(c, p), (d, p)]),
        _ => panic!("expected pairs"),
    }
    assert_eq!(store.subjects_with_predicate(q), &[b]);
    assert!(!store.has_predicate(a));
    assert_eq!(store.distinct_subjects().len(), 4);
}

#[test]
fn a_document_is_read_by_the_name_of_its_file() {
    let mut store = TripleStore::new();
    let ttl = "@prefix e: <http://e/> . e:a e:p e:b, e:c .";
    assert_eq!(store.ingest_rdf_file("x.ttl", ttl), Ok(Some(2)));
    assert_eq!(store.triple_count(), 2);
    let mut store = TripleStore::new();
    assert_eq!(store.ingest_rdf_file("x.nt", ttl), Ok(Some(0)));
    let before = store.dict.len();
    assert!(store.ingest_rdf_file("x.ttl", "@prefix").is_err());
    assert_eq!(store.dict.len(), before);
    let nt = "<http://e/a> <http://e/p> <http://e/b> .\n# comment\n\nnot a triple\n";
    assert_eq!(store.ingest_rdf_file("x.nt", nt), Ok(Some(1)));
}

#[test]
fn identifiers_can_be_loaded_directly() {
    let mut store = TripleStore::new();
    store.ingest_id_triples(vec![(1, 2, 3), (1, 2, 3), (4, 5, 6)]);
    assert_eq!(store.triple_count(), 2);
    assert_eq!(store.objects_of(1, 2).to_vec(), vec![3]);
}

#[test]
fn sizes_of_the_parts() {
    let mut store = TripleStore::new();
    let empty = store.memory_report();
    assert_eq!(empty.total, 0);
    store.ingest_str_triples(&[("a", "p", "b")]);
    let r = store.memory_report();
    assert_eq!(r.triples, 1);
    // Three keys of three bytes (kind, separator, name), and eight for each.
    assert_eq!(store.dict.raw_key(0).unwrap().len(), 3);
    assert_eq!(r.dictionary, 3 * 3 + 3 * 8);
    assert_eq!(r.predicate_subjects, 4);
    assert_eq!(r.total, r.permutations + r.dictionary + r.predicate_subjects);
    assert!(r.permutations >= 3 * 3 * 4);
}

#[test]
fn exported_triples_are_in_the_example_namespace() {
    let text = export_ntriples(&[("s", "p", "o")]);
    assert_eq!(
        text,
        "<http://example.org/s> <http://example.org/p> <http://example.org/o> .\n"
    );
    assert_eq!(parse_ntriples(&text).len(), 1);
}

// --- Keys --------------------------------------------------------------------------

#[test]
fn namespaces_fold_and_unfold() {
    for iri in [
        "http://www.wikidata.org/entity/Q1",
        "http://www.w3.org/2001/XMLSchema#integer",
        "http://example.org/x",
        "",
    ] {
        assert_eq!(unfold_iri(&fold_iri(iri)), iri);
    }
    assert!(fold_iri("http://www.wikidata.org/entity/Q1").len() < 10);
}

#[test]
fn keys_hold_the_value_and_the_type() {
    let types = [
        TermType::iri(),
        TermType::BlankNode,
        TermType::literal_plain(),
        TermType::literal_lang("de".to_string()),
        TermType::literal_datatype("http://www.w3.org/2001/XMLSchema#integer".to_string()),
    ];
    for t in &types {
        let key = encode_key("value", t);
        assert_eq!(decode_value(&key), "value");
        assert_eq!(encode_key("value", &decode_type(&key)), key);
    }
    assert_eq!(decode_type(&encode_key("v", &types[3])), types[3]);
}

// --- Snapshots ---------------------------------------------------------------------

#[test]
fn faults_of_a_snapshot() {
    let mut store = graph();
    let good = store.save_snapshot();
    assert_eq!(
        TripleStore::load_snapshot(vec![1, 2, 3]).err(),
        Some(SnapshotError::TooShort)
    );
    assert_eq!(
        TripleStore::load_snapshot(vec![0; 64]).err(),
        Some(SnapshotError::BadSignature)
    );
    let mut bad = good.clone();
    bad[8] = 9;
    assert_eq!(
        TripleStore::load_snapshot(bad).err(),
        Some(SnapshotError::BadVersion(9))
    );
    assert_eq!(
        TripleStore::load_snapshot(good[..64].to_vec()).err(),
        Some(SnapshotError::TooShort)
    );
    assert_eq!(
        TripleStore::load_snapshot(good[..100].to_vec()).err(),
        Some(SnapshotError::ArraysOutOfBounds)
    );
    assert!(matches!(
        TripleStore::load_snapshot(good[..good.len() - 1].to_vec()).err(),
        Some(SnapshotError::Dictionary(_))
    ));
    // The first word of the first array: a subject that the other orders lack.
    let mut bad = good.clone();
    bad[96] = bad[96].wrapping_add(77);
    assert_eq!(
        TripleStore::load_snapshot(bad).err(),
        Some(SnapshotError::Inconsistent)
    );
    assert!(TripleStore::load_snapshot(good).is_ok());
}

#[test]
fn keys_that_are_not_text_are_refused() {
    let mut store = TripleStore::new();
    store.ingest_str_triples(&[("s", "s", "s")]);
    let mut bytes = store.save_snapshot();
    let key = store.dict.raw_key(0).unwrap().as_bytes().to_vec();
    let at = bytes.windows(key.len()).rposition(|w| w == key);
    if let Some(i) = at {
        bytes[i + key.len() - 1] = 0xFF;
        assert_eq!(
            TripleStore::load_snapshot(bytes).err(),
            Some(SnapshotError::Dictionary(DictError::NotUtf8))
        );
    } else {
        panic!("the key is in the snapshot");
    }
}

#[test]
fn a_snapshot_gives_the_store_back() {
    let mut store = graph();
    let text = store.dump_ntriples();
    let loaded = TripleStore::load_snapshot(store.save_snapshot()).unwrap();
    assert_eq!(loaded.dump_ntriples(), text);
    assert_eq!(loaded.dict.len(), store.dict.len());
    for id in 0..store.dict.len() as u32 {
        assert_eq!(loaded.dict.raw_key(id), store.dict.raw_key(id));
    }
    // Known terms keep their identifiers, a new one gets the next.
    let mut loaded = loaded;
    let n = store.dict.len() as u32;
    let known = store.dict.lookup_iri("b").unwrap();
    assert_eq!(loaded.dict.insert_with_type("b", TermType::Iri), known);
    assert_eq!(loaded.dict.insert_with_type("new", TermType::Iri), n);
    assert_eq!(loaded.dict.insert_with_type("new", TermType::Iri), n);
}

// --- Log ---------------------------------------------------------------------------

#[test]
fn a_log_is_replayed_in_order() {
    let mut wal = Wal::new(0);
    wal.log_term("a", &TermType::Iri);
    wal.log_term("b", &TermType::literal_lang("en".to_string()));
    wal.log_op(true, 0, 0, 1);
    wal.log_op(false, 0, 0, 1);
    wal.log_op(true, 0, 0, 0);
    let mut store = TripleStore::new();
    let r = Wal::replay(&wal.pending, &mut store).unwrap();
    assert_eq!((r.applied, r.discarded), (3, 0));
    assert_eq!(store.triple_count(), 1);
    assert!(matches!(
        store.query(Term::Bound(0), Term::Bound(0), Term::Bound(0)),
        QueryResult::Exact(true)
    ));
}

// --- Relations ---------------------------------------------------------------------

#[test]
fn a_relation_is_found_from_both_sides() {
    let mut r = PredicateRelation::build(7, &[(1, 7, 2), (1, 7, 3), (4, 7, 2), (9, 8, 9), (1, 7, 2)]);
    assert_eq!(r.pid, 7);
    assert_eq!(r.objects_for(1), &[2, 3]);
    assert_eq!(r.subjects_for(2), &[1, 4]);
    assert!(r.objects_for(9).is_empty());
    assert_eq!(r.all_subjects(), &[1, 4]);
    assert_eq!(r.all_objects(), &[2, 3]);
    r.insert(1, 2);
    r.delete(1, 3);
    assert_eq!(r.objects_for(1), &[2]);
    assert_eq!(r.all_objects(), &[2]);
    r.delete(1, 2);
    r.delete(4, 2);
    assert!(r.is_empty());
    let none = PredicateRelation::empty(1);
    assert_eq!(none.pid, 1);
    assert!(none.is_empty());
    let none = PredicateRelation::default();
    assert_eq!(none.pid, 0);
    assert!(none.is_empty());
}

// --- Test data ---------------------------------------------------------------------

#[test]
fn planted_structures_come_first() {
    let params = SyntheticParams {
        n_entities: 10,
        n_predicates: 2,
        n_triples: 20,
        n_triangles: 2,
        n_chains: 1,
        seed: 3,
    };
    let first = plant(&params);
    assert_eq!(first.len(), 9);
    let t = |s: &str, p: &str, o: &str| (s.to_string(), p.to_string(), o.to_string());
    assert_eq!(first[0], t("entity_0", "predicate_0", "entity_1"));
    assert_eq!(first[5], t("entity_5", "predicate_0", "entity_3"));
    assert_eq!(first[6], t("entity_6", "predicate_0", "entity_7"));
    assert_eq!(first[8], t("entity_8", "predicate_0", "entity_9"));
    let all = generate(&params);
    assert_eq!(all.len(), 20);
    assert_eq!(all[..9], first[..]);
    for (s, p, o) in &all {
        assert!(s.starts_with("entity_") && o.starts_with("entity_"));
        assert!(p == "predicate_0" || p == "predicate_1");
    }
    // Random numbers do not repeat the same triple all the time.
    assert!(all[9..].iter().any(|x| x != &all[9]));
    assert_eq!(SyntheticParams::default().n_triples, 1_000_000);
}
