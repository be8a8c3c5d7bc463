use trillian::hypertrie::{TermType, TripleStore};
use trillian::wal::{read_term, Wal};

/// Writes three IRI terms (IDs 0,1,2) + one insert and checks that the
/// replay into a fresh store assigns the same IDs and sets the triple.
#[test]
fn replays_terms_and_insert() {
    let mut wal = Wal::new(0);
    wal.log_term("http://ex/s", &TermType::Iri);
    wal.log_term("http://ex/p", &TermType::Iri);
    wal.log_term("http://ex/o", &TermType::Iri);
    wal.log_op(true, 0, 1, 2);
    let log: Vec<u8> = wal.pending;

    let mut store = TripleStore::new();
    let applied = Wal::replay(&log, &mut store).unwrap().applied;
    assert_eq!(applied, 1);
    assert_eq!(store.triple_count(), 1);
    assert_eq!(store.dict.lookup_iri("http://ex/s"), Some(0));
    assert_eq!(store.dict.lookup_iri("http://ex/o"), Some(2));
}

/// Insert followed by delete of the same triple -> store empty again.
#[test]
fn replays_delete_after_insert() {
    let mut wal = Wal::new(0);
    wal.log_term("a", &TermType::Iri);
    wal.log_term("b", &TermType::Iri);
    wal.log_term("c", &TermType::Iri);
    wal.log_op(true, 0, 1, 2);
    wal.log_op(false, 0, 1, 2);
    let log: Vec<u8> = wal.pending;

    let mut store = TripleStore::new();
    let applied = Wal::replay(&log, &mut store).unwrap().applied;
    assert_eq!(applied, 2); // one insert + one delete applied
    assert_eq!(store.triple_count(), 0);
}

/// The type (language literal) must survive the replay losslessly.
#[test]
fn replays_typed_literal_term() {
    let mut wal = Wal::new(0);
    wal.log_term("Alice", &TermType::literal_lang("en".to_string()));
    let log: Vec<u8> = wal.pending;

    let mut store = TripleStore::new();
    Wal::replay(&log, &mut store).unwrap();
    let id = store
        .dict
        .lookup_term("Alice", &TermType::literal_lang("en".to_string()))
        .expect("language literal present after replay");
    assert!(matches!(
        store.dict.resolve_type(id),
        Some(TermType::Literal { lang: Some(_), .. })
    ));
}

/// A torn last record (crash while writing) is ignored; the fully written
/// operation before it is preserved.
#[test]
fn ignores_truncated_tail() {
    let mut wal = Wal::new(0);
    wal.log_term("a", &TermType::Iri);
    wal.log_term("b", &TermType::Iri);
    wal.log_term("c", &TermType::Iri);
    wal.log_op(true, 0, 1, 2);
    let mut log: Vec<u8> = wal.pending;
    // Append half an insert record: tag + only 4 instead of 12 bytes.
    log.extend_from_slice(&[0x00]);
    log.extend_from_slice(&7u32.to_le_bytes());

    let mut store = TripleStore::new();
    let applied = Wal::replay(&log, &mut store).unwrap().applied;
    assert_eq!(applied, 1); // only the complete operation
    assert_eq!(store.triple_count(), 1);
}

/// The replay drops the torn tail, so an operation appended afterwards is
/// still reachable. Without the truncation the replay stops at the bad
/// record and every later update is silently lost.
#[test]
fn an_op_appended_after_a_torn_record_survives() {
    let mut wal = Wal::new(0);
    wal.log_term("a", &TermType::Iri);
    wal.log_term("b", &TermType::Iri);
    wal.log_term("c", &TermType::Iri);
    let mut log: Vec<u8> = wal.pending;
    // Crash mid-record: a term tag with only part of its header.
    log.extend_from_slice(&[0x02, 0x03, 0x00]);

    // Restart: replay repairs the tail, then the server appends to it.
    let mut store = TripleStore::new();
    let first = Wal::replay(&log, &mut store).unwrap();
    assert_eq!(first.discarded, 3, "the torn record should be dropped");
    let kept = log.len() - first.discarded as usize;
    log.truncate(kept);
    let mut wal = Wal::new(3);
    wal.log_op(true, 0, 1, 2);
    log.extend_from_slice(&wal.pending);

    // Next restart: the appended operation must still be applied.
    let mut store = TripleStore::new();
    let second = Wal::replay(&log, &mut store).unwrap();
    assert_eq!(second.applied, 1, "the op after the torn record was lost");
    assert_eq!(second.discarded, 0);
    assert_eq!(store.triple_count(), 1);
}

/// Whatever is left of a torn record, nothing of it is applied.
#[test]
fn no_part_of_a_record_is_read() {
    let mut wal = Wal::new(0);
    wal.log_term("Alice", &TermType::literal_lang("en".to_string()));
    let term = wal.pending.len();
    for k in 0..term {
        let mut store = TripleStore::new();
        let r = Wal::replay(&wal.pending[..k], &mut store).unwrap();
        assert_eq!((r.applied, r.discarded, store.dict.len()), (0, k as u64, 0));
    }
    wal.log_op(true, 0, 0, 0);
    for k in term..wal.pending.len() {
        let mut store = TripleStore::new();
        let r = Wal::replay(&wal.pending[..k], &mut store).unwrap();
        assert_eq!((r.applied, r.discarded), (0, (k - term) as u64));
        assert_eq!(store.dict.len(), 1);
    }
}

/// A term is read wherever it stands, and no part of one is.
#[test]
fn terms_are_read_back() {
    for typ in [
        TermType::Iri,
        TermType::BlankNode,
        TermType::literal_plain(),
        TermType::literal_lang("de".to_string()),
        TermType::literal_datatype("http://ex/d".to_string()),
    ] {
        let mut wal = Wal::new(0);
        wal.log_term("v\u{e4}", &typ);
        let rec = &wal.pending[1..];
        let mut bytes = vec![9u8, 9];
        bytes.extend_from_slice(rec);
        bytes.push(7);
        let (value, kind, end) = read_term(&bytes, 2).unwrap();
        assert_eq!(value, "v\u{e4}");
        assert_eq!(kind, typ);
        assert_eq!(end, 2 + rec.len());
        for n in 0..rec.len() {
            assert!(read_term(&rec[..n], 0).is_none());
        }
    }
    assert!(read_term(&[], 1).is_none());
}

/// Whole records take effect and are counted; the tail is left, however it begins.
#[test]
fn replay_ends_where_the_tail_begins() {
    let mut wal = Wal::new(0);
    wal.log_term("a", &TermType::Iri);
    wal.log_op(true, 0, 0, 0);
    wal.log_op(false, 0, 0, 0);
    for tail in [&[][..], &[0x00, 1][..], &[0x02, 9, 0, 0, 0][..], &[0x77, 0, 0, 0][..]] {
        let mut log = wal.pending.clone();
        log.extend_from_slice(tail);
        let mut store = TripleStore::new();
        let r = Wal::replay(&log, &mut store).unwrap();
        assert_eq!((r.applied, r.discarded), (2, tail.len() as u64));
        assert_eq!(store.triple_count(), 0);
        assert_eq!(store.dict.len(), 1);
    }
}
