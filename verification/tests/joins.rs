use trillian::hypertrie::engine::has_cycle;
use trillian::hypertrie::stats::Stats;
use trillian::hypertrie::{
    execute_wcoj, max_result_rows, GraphPattern, HybridEngine, PatternTerm, TriplePattern, TripleStore,
};
use trillian::synthetic::{generate, SyntheticParams};

fn cycle_pattern() -> GraphPattern {
    GraphPattern {
        patterns: vec![
            TriplePattern {
                subject: PatternTerm::Variable("a".to_string()),
                predicate: PatternTerm::Bound(1),
                object: PatternTerm::Variable("b".to_string()),
            },
            TriplePattern {
                subject: PatternTerm::Variable("b".to_string()),
                predicate: PatternTerm::Bound(1),
                object: PatternTerm::Variable("c".to_string()),
            },
            TriplePattern {
                subject: PatternTerm::Variable("c".to_string()),
                predicate: PatternTerm::Bound(1),
                object: PatternTerm::Variable("a".to_string()),
            },
        ],
    }
}

fn path_pattern() -> GraphPattern {
    GraphPattern {
        patterns: vec![
            TriplePattern {
                subject: PatternTerm::Variable("a".to_string()),
                predicate: PatternTerm::Bound(1),
                object: PatternTerm::Variable("b".to_string()),
            },
            TriplePattern {
                subject: PatternTerm::Variable("b".to_string()),
                predicate: PatternTerm::Bound(1),
                object: PatternTerm::Variable("c".to_string()),
            },
        ],
    }
}

#[test]
fn detects_triangle() {
    assert!(has_cycle(&cycle_pattern()));
}

#[test]
fn path_is_acyclic() {
    assert!(!has_cycle(&path_pattern()));
}

#[test]
fn star_is_acyclic() {
    let star = GraphPattern {
        patterns: vec![
            TriplePattern {
                subject: PatternTerm::Variable("x".to_string()),
                predicate: PatternTerm::Bound(1),
                object: PatternTerm::Variable("y1".to_string()),
            },
            TriplePattern {
                subject: PatternTerm::Variable("x".to_string()),
                predicate: PatternTerm::Bound(1),
                object: PatternTerm::Variable("y2".to_string()),
            },
        ],
    };
    assert!(!has_cycle(&star));
}

#[test]
fn wcoj_triangle() {
    let mut store = TripleStore::new();
    store.ingest_str_triples(&[
        ("alice", "knows", "bob"),
        ("bob", "knows", "charlie"),
        ("charlie", "knows", "alice"),
        ("alice", "knows", "dave"), // no triangle
    ]);

    let knows = store.dict.lookup_iri("knows").unwrap();
    let pattern = GraphPattern {
        patterns: vec![
            TriplePattern {
                subject: PatternTerm::Variable("a".to_string()),
                predicate: PatternTerm::Bound(knows),
                object: PatternTerm::Variable("b".to_string()),
            },
            TriplePattern {
                subject: PatternTerm::Variable("b".to_string()),
                predicate: PatternTerm::Bound(knows),
                object: PatternTerm::Variable("c".to_string()),
            },
            TriplePattern {
                subject: PatternTerm::Variable("c".to_string()),
                predicate: PatternTerm::Bound(knows),
                object: PatternTerm::Variable("a".to_string()),
            },
        ],
    };

    let results = execute_wcoj(&store, &pattern, max_result_rows(None)).unwrap();
    // Each rotation of the triangle is a result: (a,b,c), (b,c,a), (c,a,b)
    assert_eq!(results.n_rows(), 3);
}

fn make_pattern() -> GraphPattern {
    GraphPattern {
        patterns: vec![
            // (?x, p1, ?y) - cardinality 100
            TriplePattern {
                subject: PatternTerm::Variable("x".to_string()),
                predicate: PatternTerm::Bound(1),
                object: PatternTerm::Variable("y".to_string()),
            },
            // (?y, p2, const) - cardinality 5
            TriplePattern {
                subject: PatternTerm::Variable("y".to_string()),
                predicate: PatternTerm::Bound(2),
                object: PatternTerm::Bound(99),
            },
            // (?x, p3, ?z) - cardinality 50
            TriplePattern {
                subject: PatternTerm::Variable("x".to_string()),
                predicate: PatternTerm::Bound(3),
                object: PatternTerm::Variable("z".to_string()),
            },
        ],
    }
}

#[test]
fn optimizer_picks_most_selective_first() {
    let mut stats = Stats::default();
    stats.total_triples = 155;
    stats.predicate_degree.insert(1, 100);
    stats.predicate_degree.insert(2, 5);
    stats.predicate_degree.insert(3, 50);

    let pattern = make_pattern();
    let plan = pattern.optimize(&stats);

    assert_eq!(plan.steps[0].pattern_index, 1); // cardinality 5
}

#[test]
fn optimizer_prefers_connected_patterns() {
    let mut stats = Stats::default();
    stats.total_triples = 155;
    stats.predicate_degree.insert(1, 100);
    stats.predicate_degree.insert(2, 5);
    stats.predicate_degree.insert(3, 50);

    let pattern = make_pattern();
    let plan = pattern.optimize(&stats);

    // Nach Pattern 1 (y) muss Pattern 0 folgen, weil es y teilt.
    assert_eq!(plan.steps[1].pattern_index, 0);
    // Pattern 2 teilt x mit Pattern 0.
    assert_eq!(plan.steps[2].pattern_index, 2);
}

fn var(name: &str) -> PatternTerm {
    PatternTerm::Variable(name.to_string())
}

#[test]
fn graph_data_produces_non_empty_joins() {
    let params = SyntheticParams {
        n_entities: 2_000,
        n_predicates: 10,
        n_triples: 30_000,
        n_triangles: 50,
        n_chains: 50,
        seed: 7,
    };
    let triples = generate(&params);
    let str_triples: Vec<(&str, &str, &str)> = triples
        .iter()
        .map(|(s, p, o)| (s.as_str(), p.as_str(), o.as_str()))
        .collect();

    let mut store = TripleStore::new();
    store.ingest_str_triples(&str_triples);
    let engine = HybridEngine::new();

    let p0 = store.dict.lookup_iri("predicate_0").unwrap();
    let p1 = store.dict.lookup_iri("predicate_1").unwrap();
    let p2 = store.dict.lookup_iri("predicate_2").unwrap();

    // Chain: (?w,p0,?x)(?x,p1,?y)(?y,p2,?z)
    let chain = GraphPattern {
        patterns: vec![
            TriplePattern {
                subject: var("w"),
                predicate: PatternTerm::Bound(p0),
                object: var("x"),
            },
            TriplePattern {
                subject: var("x"),
                predicate: PatternTerm::Bound(p1),
                object: var("y"),
            },
            TriplePattern {
                subject: var("y"),
                predicate: PatternTerm::Bound(p2),
                object: var("z"),
            },
        ],
    };
    let chain_rows = engine.execute(&store, &chain).expect("chain").n_rows();

    // Triangle: (?a,p0,?b)(?b,p0,?c)(?c,p0,?a)
    let triangle = GraphPattern {
        patterns: vec![
            TriplePattern {
                subject: var("a"),
                predicate: PatternTerm::Bound(p0),
                object: var("b"),
            },
            TriplePattern {
                subject: var("b"),
                predicate: PatternTerm::Bound(p0),
                object: var("c"),
            },
            TriplePattern {
                subject: var("c"),
                predicate: PatternTerm::Bound(p0),
                object: var("a"),
            },
        ],
    };
    let triangle_rows = engine
        .execute(&store, &triangle)
        .expect("triangle")
        .n_rows();

    assert!(
        chain_rows > 0,
        "chain join must be non-empty, got {}",
        chain_rows
    );
    assert!(
        triangle_rows > 0,
        "triangle join must be non-empty, got {}",
        triangle_rows
    );
}

#[test]
fn positions_resolve_under_a_row() {
    let pattern = cycle_pattern();
    let vars = pattern.variable_order();
    let row = [7u32, u32::MAX, 9];
    let at = |name: &str| PatternTerm::Variable(name.to_string()).bound_or_resolved(&row, &vars);
    assert_eq!(at("a"), Some(7));
    assert_eq!(at("b"), None);
    assert_eq!(at("c"), Some(9));
    assert_eq!(at("d"), None);
    assert_eq!(PatternTerm::Bound(3).bound_or_resolved(&row, &vars), Some(3));
}
