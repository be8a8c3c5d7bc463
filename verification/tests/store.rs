use trillian::hypertrie::stats::CardEstimator;
use trillian::hypertrie::{
    parse_ntriples, QueryResult, Term, TermType, TripleStore, Var,
};

#[test]
fn cardinality_estimator_from_index() {
    // CardEstimator is served on-demand from the indexes (no stored maps).
    // s1 -p-> {o1,o2}, s2 -p-> o1, s1 -q-> o1
    let mut store = TripleStore::new();
    let s1 = store.dict.insert("s1");
    let s2 = store.dict.insert("s2");
    let p = store.dict.insert("p");
    let q = store.dict.insert("q");
    let o1 = store.dict.insert("o1");
    let o2 = store.dict.insert("o2");
    store.insert_triple(s1, p, o1);
    store.insert_triple(s1, p, o2);
    store.insert_triple(s2, p, o1);
    store.insert_triple(s1, q, o1);

    assert_eq!(store.total(), 4);
    assert_eq!(store.sp(s1, p), 2); // #objects of (s1,p)
    assert_eq!(store.sp(s2, p), 1);
    assert_eq!(store.po(p, o1), 2); // #subjects of (p,o1): s1,s2
    assert_eq!(store.os(o1, s1), 2); // #predicates of (o1,s1): p,q
    assert_eq!(store.sdeg(s1), 3); // triples with subject s1
    assert_eq!(store.pdeg(p), 3); // triples with predicate p
    assert_eq!(store.odeg(o1), 3); // triples with object o1
    assert_eq!(store.sp(s1, q), 1);
    assert_eq!(store.po(q, o2), 0); // none
}

fn example_store() -> TripleStore {
    let mut store = TripleStore::new();
    store.ingest_str_triples(&[
        ("alice", "knows", "bob"),
        ("alice", "knows", "charlie"),
        ("alice", "age", "30"),
        ("bob", "knows", "alice"),
        ("bob", "age", "25"),
        ("charlie", "knows", "bob"),
    ]);
    store
}

#[test]
fn exact_query() {
    let store = example_store();
    assert!(matches!(
        store.query(Term::Bound(0), Term::Bound(1), Term::Bound(2)),
        QueryResult::Exact(true)
    ));
}

#[test]
fn wildcard_object() {
    let store = example_store();
    if let QueryResult::Single(Var::O, vals) =
        store.query(Term::Bound(0), Term::Bound(1), Term::Wildcard)
    {
        assert_eq!(vals.len(), 2);
    } else {
        panic!("expected Single result");
    }
}

#[test]
fn wildcard_subject() {
    let store = example_store();
    if let QueryResult::Single(Var::S, vals) =
        store.query(Term::Wildcard, Term::Bound(1), Term::Bound(2))
    {
        assert_eq!(vals.len(), 2); // alice and charlie know bob
    } else {
        panic!("expected Single result");
    }
}

#[test]
fn wildcard_predicate() {
    let store = example_store();
    if let QueryResult::Single(Var::P, vals) =
        store.query(Term::Bound(0), Term::Wildcard, Term::Bound(2))
    {
        assert_eq!(vals.len(), 1); // alice knows bob
    } else {
        panic!("expected Single result");
    }
}

#[test]
fn all_wildcards() {
    let store = example_store();
    if let QueryResult::All(triples) =
        store.query(Term::Wildcard, Term::Wildcard, Term::Wildcard)
    {
        assert_eq!(triples.len(), 6);
    } else {
        panic!("expected All result");
    }
}

#[test]
fn intersect_objects_finds_common_friends() {
    // Should (alice, knows, ?O) ∩ (bob, knows, ?O) contain [alice]?
    // alice knows bob & charlie; bob knows alice.
    // Intersection: {} (bob and alice share no acquaintances)
    //
    // Better: alice and charlie both know bob.
    // (alice, knows, ?O) ∩ (charlie, knows, ?O) = [bob]
    let store = example_store();
    let alice = store.dict.lookup_iri("alice").unwrap();
    let charlie = store.dict.lookup_iri("charlie").unwrap();
    let bob = store.dict.lookup_iri("bob").unwrap();
    let knows = store.dict.lookup_iri("knows").unwrap();

    let common = store.intersect_objects(alice, knows, charlie, knows);
    assert_eq!(common, vec![bob]);
}

#[test]
fn dump_ntriples_roundtrip_preserves_literals() {
    let mut store = TripleStore::new();
    store.ingest_str_triples(&[(
        "http://example.org/alice",
        "http://example.org/knows",
        "http://example.org/bob",
    )]);
    // Insert one literal with a language tag and one with a datatype.
    let s = store.dict.insert_with_type(
        "http://example.org/alice",
        TermType::Iri,
    );
    let name = store.dict.insert_with_type(
        "http://example.org/name",
        TermType::Iri,
    );
    let lit = store.dict.insert_with_type(
        "Alice",
        TermType::literal_lang("en".to_string()),
    );
    store.insert_triple(s, name, lit);

    let dumped = store.dump_ntriples();

    let reparsed = parse_ntriples(&dumped);
    let mut store2 = TripleStore::new();
    store2.ingest(&reparsed);

    assert_eq!(store.triple_count(), store2.triple_count());
    // The language literal must be preserved losslessly.
    let lit2 = store2
        .dict
        .lookup_term(
            "Alice",
            &TermType::literal_lang("en".to_string()),
        )
        .expect("literal preserved");
    assert!(matches!(
        store2.dict.resolve_type(lit2),
        Some(TermType::Literal { lang: Some(_), .. })
    ));
}

#[test]
fn snapshot_mmap_roundtrip() {
    let mut store = TripleStore::new();
    store.ingest_str_triples(&[
        (
            "http://example.org/a",
            "http://example.org/p",
            "http://example.org/b",
        ),
        (
            "http://example.org/a",
            "http://example.org/p",
            "http://example.org/c",
        ),
        (
            "http://example.org/b",
            "http://example.org/q",
            "http://example.org/c",
        ),
    ]);
    // also include a typed literal
    let s = store.dict.insert("http://example.org/a");
    let name = store.dict.insert("http://example.org/name");
    let lit = store.dict.insert_with_type(
        "Alice",
        TermType::literal_lang("en".to_string()),
    );
    store.insert_triple(s, name, lit);

    let bytes = store.save_snapshot();

    let loaded = TripleStore::load_snapshot(bytes).unwrap();
    assert_eq!(loaded.triple_count(), store.triple_count());

    // Query over the mapped index
    let p = loaded.dict.lookup_iri("http://example.org/p").unwrap();
    let a = loaded.dict.lookup_iri("http://example.org/a").unwrap();
    if let QueryResult::Single(Var::O, objs) =
        loaded.query(Term::Bound(a), Term::Bound(p), Term::Wildcard)
    {
        assert_eq!(objs.len(), 2); // b, c
    } else {
        panic!("expected Single");
    }

    // Literal type lossless
    let lit2 = loaded
        .dict
        .lookup_term(
            "Alice",
            &TermType::literal_lang("en".to_string()),
        )
        .unwrap();
    assert!(matches!(
        loaded.dict.resolve_type(lit2),
        Some(TermType::Literal { lang: Some(_), .. })
    ));

    // WCOJ helper lists derived correctly
    assert!(loaded.has_predicate(p));

    // mmap base: IRI resolves fully (unfolded).
    assert_eq!(
        loaded.dict.resolve(a).as_deref(),
        Some("http://example.org/a")
    );
}

#[test]
fn snapshot_insert_after_load_uses_overlay() {
    // Terms added after loading land in the owned overlay (id >= base_n),
    // without duplicating the mmap base; updates stay functional.
    let mut store = TripleStore::new();
    store.ingest_str_triples(&[(
        "http://www.wikidata.org/entity/Q1",
        "http://www.wikidata.org/prop/direct/P1",
        "http://www.wikidata.org/entity/Q2",
    )]);
    let bytes = store.save_snapshot();
    let mut loaded = TripleStore::load_snapshot(bytes).unwrap();
    let base = loaded.dict.len();

    // existing (mapped) term -> same ID, no new entry
    let q1 = loaded.dict.insert("http://www.wikidata.org/entity/Q1");
    assert!((q1 as usize) < base, "mapped term keeps its base ID");
    assert_eq!(loaded.dict.len(), base, "no duplicate in the overlay");

    // new term -> overlay ID >= base, resolvable + findable correctly
    let q3 = loaded.dict.insert("http://www.wikidata.org/entity/Q3");
    assert!((q3 as usize) >= base, "new term in the overlay");
    assert_eq!(
        loaded.dict.resolve(q3).as_deref(),
        Some("http://www.wikidata.org/entity/Q3")
    );
    assert_eq!(
        loaded.dict.lookup_iri("http://www.wikidata.org/entity/Q3"),
        Some(q3)
    );
    // an insert + query over the new term
    loaded.insert_triple(q1, q1, q3);
    assert!(matches!(
        loaded.query(Term::Bound(q1), Term::Bound(q1), Term::Bound(q3)),
        QueryResult::Exact(true)
    ));
}

#[test]
fn load_snapshot_rejects_bad_magic_and_version() {
    // Garbage bytes -> error instead of panic.
    assert!(TripleStore::load_snapshot(vec![0u8; 64]).is_err());

    // Write a valid snapshot, then corrupt the version number.
    let mut store = TripleStore::new();
    store.ingest_str_triples(&[(
        "http://example.org/a",
        "http://example.org/p",
        "http://example.org/b",
    )]);
    let mut bytes = store.save_snapshot();
    assert!(TripleStore::load_snapshot(bytes.clone()).is_ok());

    bytes[8] = 0xFF; // break the version byte
    assert!(TripleStore::load_snapshot(bytes).is_err());
}

#[test]
fn apply_updates_single_rebuild() {
    let mut store = TripleStore::new();
    store.ingest_str_triples(&[(
        "http://example.org/a",
        "http://example.org/p",
        "http://example.org/b",
    )]);
    let a = store.dict.lookup_iri("http://example.org/a").unwrap();
    let p = store.dict.lookup_iri("http://example.org/p").unwrap();
    let b = store.dict.lookup_iri("http://example.org/b").unwrap();
    let c = store.dict.insert("http://example.org/c");

    // delete b, insert c – in one rebuild.
    store.apply_updates(&[(a, p, c)], &[(a, p, b)]);
    assert_eq!(store.triple_count(), 1);
    assert!(matches!(
        store.query(Term::Bound(a), Term::Bound(p), Term::Bound(c)),
        QueryResult::Exact(true)
    ));
    assert!(matches!(
        store.query(Term::Bound(a), Term::Bound(p), Term::Bound(b)),
        QueryResult::Exact(false)
    ));
}

#[test]
fn join_chain_born_in_located_in() {
    // Manual mini dataset:
    // city0 locatedIn country0
    // person0 bornIn city0
    // person1 bornIn city0
    let mut store = TripleStore::new();
    store.ingest_str_triples(&[
        ("city0", "locatedIn", "country0"),
        ("person0", "bornIn", "city0"),
        ("person1", "bornIn", "city0"),
        ("person2", "bornIn", "city1"), // different city
    ]);

    let born_in = store.dict.lookup_iri("bornIn").unwrap();
    let located_in = store.dict.lookup_iri("locatedIn").unwrap();
    let country0 = store.dict.lookup_iri("country0").unwrap();

    let results = store.join_chain(born_in, located_in, country0);
    assert_eq!(results.len(), 2);
}
