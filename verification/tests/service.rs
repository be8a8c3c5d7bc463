use serde_json::Value;
use trillian::cache::{AnswerCache, DEFAULT_CACHE_SIZE};
use trillian::hypertrie::{HybridEngine, TermType, TripleStore};
use trillian::sparql::json::{append_json_str, write_sparql_json};
use trillian::sparql::numbers::{NumberCall, NumberReply};
use trillian::sparql::run;
use trillian::sparql::service::{
    max_body_bytes, query_request, stream_error, stream_head, stream_row, update_request,
    SparqlQueryParams, UpdateParams,
};
use trillian::sparql::tables::Solutions;

fn numbers(_: NumberCall) -> NumberReply {
    NumberReply::Nothing
}

fn params(query: Option<&str>, infer: Option<&str>) -> SparqlQueryParams {
    SparqlQueryParams {
        query: query.map(|s| s.to_string()),
        infer: infer.map(|s| s.to_string()),
    }
}

fn people() -> TripleStore {
    let mut store = TripleStore::new();
    store
        .ingest_ntriples_file(
            "<http://e/a> <http://e/name> \"A \\\"quoted\\\"\\tname\"@en .\n\
             <http://e/b> <http://e/age> \"5\"^^<http://www.w3.org/2001/XMLSchema#integer> .\n\
             _:x <http://e/name> \"plain\" .\n",
        )
        .unwrap();
    store
}

fn select(store: &TripleStore, q: &str) -> Solutions {
    run::select_rows(store, &HybridEngine::new(), q, false, &numbers).unwrap()
}

#[test]
fn the_parameter_comes_before_the_body() {
    let q = query_request(params(Some("  SELECT 1 "), None), "body".to_string()).unwrap();
    assert_eq!(q.text, "SELECT 1");
    assert!(!q.infer);
    let q = query_request(params(Some("  "), Some("rdfs")), " body\n".to_string()).unwrap();
    assert_eq!(q.text, "body");
    assert!(q.infer);
    let q = query_request(params(None, Some("owl")), "body".to_string()).unwrap();
    assert!(!q.infer);
}

#[test]
fn requests_without_text_are_refused() {
    assert_eq!(
        query_request(params(Some(" "), None), "\n".to_string()).unwrap_err(),
        "Missing query parameter or empty body"
    );
    let none = UpdateParams { update: None };
    assert_eq!(
        update_request(none, "  ".to_string()).unwrap_err(),
        "Missing update parameter or empty body"
    );
    let some = UpdateParams {
        update: Some(" x ".to_string()),
    };
    assert_eq!(update_request(some, String::new()).unwrap(), "x");
}

#[test]
fn body_limit_setting() {
    assert_eq!(max_body_bytes(None), 64 * 1024 * 1024);
    assert_eq!(max_body_bytes(Some("1000")), 1000);
    assert_eq!(max_body_bytes(Some("many")), 64 * 1024 * 1024);
}

#[test]
fn stream_lines_are_json_objects() {
    let store = people();
    let t = select(&store, "SELECT ?s ?n WHERE { ?s <http://e/name> ?n }");
    assert_eq!(stream_head(&t), "{\"head\":{\"vars\":[\"s\",\"n\"]}}\n");
    let mut lines: Vec<Value> = Vec::new();
    for i in 0..t.rows.n_rows() {
        let line = stream_row(&t, i, &store.dict);
        assert!(line.ends_with('\n'));
        assert_eq!(line.matches('\n').count(), 1);
        lines.push(serde_json::from_str(&line).unwrap());
    }
    assert_eq!(lines.len(), 2);
    let a = lines.iter().find(|l| l["s"]["value"] == "http://e/a").unwrap();
    assert_eq!(a["s"]["type"], "uri");
    assert_eq!(a["n"]["type"], "literal");
    assert_eq!(a["n"]["value"], "A \"quoted\"\tname");
    assert_eq!(a["n"]["xml:lang"], "en");
    let x = lines.iter().find(|l| l["s"]["value"] == "x").unwrap();
    assert_eq!(x["s"]["type"], "bnode");
    assert_eq!(x["n"]["value"], "plain");
    assert!(x["n"].get("xml:lang").is_none());
}

#[test]
fn unbound_cells_of_a_stream_are_null() {
    let store = people();
    let t = select(
        &store,
        "SELECT ?s ?g WHERE { ?s <http://e/age> ?o OPTIONAL { ?s <http://e/gone> ?g } }",
    );
    assert_eq!(
        stream_row(&t, 0, &store.dict),
        "{\"g\":null,\"s\":{\"type\":\"uri\",\"value\":\"http://e/b\"}}\n"
    );
}

#[test]
fn a_failed_stream_is_one_line() {
    assert_eq!(stream_error("no \"way\""), "{\"error\":\"no \\\"way\\\"\"}\n");
}

#[test]
fn results_are_json() {
    let store = people();
    let t = select(&store, "SELECT ?s ?o WHERE { ?s <http://e/age> ?o }");
    assert_eq!(
        write_sparql_json(&t, &store.dict),
        "{\"head\":{\"vars\":[\"s\",\"o\"]},\"results\":{\"bindings\":[{\
         \"s\":{\"type\":\"uri\",\"value\":\"http://e/b\"},\
         \"o\":{\"type\":\"literal\",\"value\":\"5\",\
         \"datatype\":\"http://www.w3.org/2001/XMLSchema#integer\"}}]}}"
    );
}

#[test]
fn texts_survive_json() {
    for text in ["", "plain", "q\"b\\s", "line\nbreak\r\ttab", "\u{1}\u{1f}", "Grüße 🎉"] {
        let mut out = String::new();
        append_json_str(&mut out, text);
        let back: Value = serde_json::from_str(&out).unwrap();
        assert_eq!(back, Value::from(text));
    }
    let mut out = String::new();
    append_json_str(&mut out, "a\u{1}");
    assert_eq!(out, "\"a\\u0001\"");
}

#[test]
fn an_unknown_identifier_shows_its_number() {
    let store = TripleStore::new();
    let t = trillian::sparql::json::term_of(7, &store.dict);
    assert_eq!(t.value, "__id_7");
}

#[test]
fn answers_are_kept_until_the_next_update() {
    let mut cache = AnswerCache::new();
    assert!(cache.recall("q", false).is_none());
    cache.remember("q", false, "plain".to_string());
    cache.remember("q", true, "inferred".to_string());
    assert_eq!(cache.recall("q", false).unwrap(), "plain");
    assert_eq!(cache.recall("q", true).unwrap(), "inferred");
    cache.remember("q", false, "newer".to_string());
    assert_eq!(cache.recall("q", false).unwrap(), "newer");
    cache.clear();
    assert!(cache.recall("q", false).is_none());
    assert!(cache.recall("q", true).is_none());
}

#[test]
fn a_full_cache_forgets_the_oldest_answer() {
    let mut cache = AnswerCache::new();
    for i in 0..DEFAULT_CACHE_SIZE {
        cache.remember(&format!("q{i}"), false, format!("{i}"));
    }
    // Looking does not count as use; keeping again does.
    assert_eq!(cache.recall("q0", false).unwrap(), "0");
    cache.remember("q1", false, "1".to_string());
    cache.remember("one more", false, "x".to_string());
    assert!(cache.recall("q0", false).is_none());
    assert_eq!(cache.recall("q1", false).unwrap(), "1");
    cache.remember("and one", false, "x".to_string());
    assert!(cache.recall("q2", false).is_none());
    assert_eq!(cache.recall("q1", false).unwrap(), "1");
}

#[test]
fn a_dumped_store_reads_back() {
    let mut store = people();
    let odd = store.dict.insert_with_type("tab\tquote\"slash\\line\n", TermType::literal_plain());
    let s = store.dict.insert("http://e/odd");
    store.insert_triple(s, s, odd);
    let text = store.dump_ntriples();
    let mut again = TripleStore::new();
    assert_eq!(again.ingest_ntriples_file(&text), Some(4));
    let mut a: Vec<String> = text.lines().map(|l| l.to_string()).collect();
    let mut b: Vec<String> = again.dump_ntriples().lines().map(|l| l.to_string()).collect();
    a.sort();
    b.sort();
    assert_eq!(a, b);
}
