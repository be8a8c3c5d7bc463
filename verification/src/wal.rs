//! The write-ahead log.
//!
//! Every new term and every change of a triple becomes a record. The log is
//! append-only; after a restart it is replayed onto the stored state. A record
//! that was torn by a crash ends what can be read.
//!
//! A record begins with its tag, numbers are little-endian:
//!
//! - `2`, a term: its text, then its type, where `0` is an IRI, `1` a blank node,
//!   `2` a plain literal, `3` a literal with a language and `4` one with a
//!   datatype, each followed by its text;
//! - `0`, an inserted triple: three identifiers;
//! - `1`, a deleted triple: three identifiers.
//!
//! A text is its length in bytes and its UTF-8 bytes.

use crate::bytes::{le32, lemma_le32, push_u32, read_u32, utf8_text};
use crate::hypertrie::csr::IdTriple;
use crate::hypertrie::dictionary::{plain, tagged, typed, TermKind, TermType};
use crate::hypertrie::query::TripleStore;
use crate::sparql::bind::{dictionary_full_text, intern, interned};
use crate::text::owned;
use vstd::prelude::*;
use vstd::slice::slice_subrange;
use vstd::utf8::{decode_utf8, encode_utf8, valid_utf8};

verus! {

/// A record of the log.
pub enum RecordView {
    Term(Seq<char>, TermKind),
    Insert(u32, u32, u32),
    Delete(u32, u32, u32),
}

/// A text with its length.
pub open spec fn text_bytes(s: Seq<char>) -> Seq<u8> {
    vstd::bytes::spec_u32_to_le_bytes(encode_utf8(s).len() as u32) + encode_utf8(s)
}

/// The type of a term. A language leaves no room for a datatype.
pub open spec fn type_bytes(k: TermKind) -> Seq<u8> {
    match k {
        TermKind::Iri => seq![0u8],
        TermKind::BlankNode => seq![1u8],
        TermKind::Literal { datatype, lang } => match (lang, datatype) {
            (Some(l), _) => seq![3u8] + text_bytes(l),
            (None, Some(d)) => seq![4u8] + text_bytes(d),
            (None, None) => seq![2u8],
        },
    }
}

/// The identifiers of a triple.
pub open spec fn id_bytes(s: u32, p: u32, o: u32) -> Seq<u8> {
    vstd::bytes::spec_u32_to_le_bytes(s) + vstd::bytes::spec_u32_to_le_bytes(p)
        + vstd::bytes::spec_u32_to_le_bytes(o)
}

/// The bytes of a record.
pub open spec fn record_bytes(r: RecordView) -> Seq<u8> {
    match r {
        RecordView::Term(v, k) => seq![2u8] + text_bytes(v) + type_bytes(k),
        RecordView::Insert(s, p, o) => seq![0u8] + id_bytes(s, p, o),
        RecordView::Delete(s, p, o) => seq![1u8] + id_bytes(s, p, o),
    }
}

/// The bytes of a list of records.
pub open spec fn log_bytes(rs: Seq<RecordView>) -> Seq<u8>
    decreases rs.len(),
{
    if rs.len() == 0 {
        Seq::empty()
    } else {
        log_bytes(rs.drop_last()) + record_bytes(rs.last())
    }
}

// --- Writing ---------------------------------------------------------------------------

/// Records that wait to be written out.
#[derive(Debug)]
pub struct Wal {
    pub pending: Vec<u8>,
    /// How many terms of the dictionary the stored state and the log hold.
    pub logged: usize,
}

fn push_text(buf: &mut Vec<u8>, s: &str)
    ensures
        final(buf)@ == old(buf)@ + text_bytes(s@),
{
    let ghost start = buf@;
    let b: &[u8] = s.as_bytes();
    push_u32(buf, b.len() as u32);
    buf.extend_from_slice(b);
    assert(buf@ =~= start + text_bytes(s@));
}

fn push_type(buf: &mut Vec<u8>, typ: &TermType)
    ensures
        final(buf)@ == old(buf)@ + type_bytes(typ@),
{
    let ghost start = buf@;
    match typ {
        TermType::Iri => {
            buf.push(0);
            assert(buf@ =~= start + seq![0u8]);
        },
        TermType::BlankNode => {
            buf.push(1);
            assert(buf@ =~= start + seq![1u8]);
        },
        TermType::Literal { lang: Some(l), .. } => {
            buf.push(3);
            push_text(buf, l.as_str());
            assert(buf@ =~= start + (seq![3u8] + text_bytes(l@)));
        },
        TermType::Literal { datatype: Some(d), lang: None } => {
            buf.push(4);
            push_text(buf, d.as_str());
            assert(buf@ =~= start + (seq![4u8] + text_bytes(d@)));
        },
        TermType::Literal { datatype: None, lang: None } => {
            buf.push(2);
            assert(buf@ =~= start + seq![2u8]);
        },
    }
}

impl Wal {
    /// An empty log over a stored state with `logged` terms.
    pub fn new(logged: usize) -> (r: Wal)
        ensures
            r.pending@ == Seq::<u8>::empty(),
            r.logged == logged,
    {
        Wal { pending: Vec::new(), logged }
    }

    /// Logs a term that is new in the dictionary.
    pub fn log_term(&mut self, value: &str, typ: &TermType)
        ensures
            final(self).pending@ == old(self).pending@ + record_bytes(
                RecordView::Term(value@, typ@),
            ),
            final(self).logged == old(self).logged,
    {
        let ghost start = self.pending@;
        self.pending.push(2);
        push_text(&mut self.pending, value);
        push_type(&mut self.pending, typ);
        assert(self.pending@ =~= start + record_bytes(RecordView::Term(value@, typ@)));
    }

    /// Logs an inserted or a deleted triple.
    pub fn log_op(&mut self, insert: bool, s: u32, p: u32, o: u32)
        ensures
            final(self).pending@ == old(self).pending@ + record_bytes(
                if insert {
                    RecordView::Insert(s, p, o)
                } else {
                    RecordView::Delete(s, p, o)
                },
            ),
            final(self).logged == old(self).logged,
    {
        let ghost start = self.pending@;
        self.pending.push(
            if insert {
                0
            } else {
                1
            },
        );
        push_u32(&mut self.pending, s);
        push_u32(&mut self.pending, p);
        push_u32(&mut self.pending, o);
        proof {
            let tag: u8 = if insert {
                0
            } else {
                1
            };
            assert(self.pending@ =~= start + (seq![tag] + id_bytes(s, p, o)));
        }
    }
}

// --- Reading ---------------------------------------------------------------------------

/// The text at `p`, and what comes after it.
pub open spec fn text_at(b: Seq<u8>, p: int) -> Option<(Seq<char>, int)> {
    if p < 0 || p + 4 > b.len() {
        None
    } else {
        let end = p + 4 + le32(b, p);
        if end > b.len() {
            None
        } else if !valid_utf8(b.subrange(p + 4, end)) {
            None
        } else {
            Some((decode_utf8(b.subrange(p + 4, end)), end))
        }
    }
}

/// The type at `p`, and what comes after it.
pub open spec fn type_at(b: Seq<u8>, p: int) -> Option<(TermKind, int)> {
    if p < 0 || p >= b.len() {
        None
    } else if b[p] == 0 {
        Some((TermKind::Iri, p + 1))
    } else if b[p] == 1 {
        Some((TermKind::BlankNode, p + 1))
    } else if b[p] == 2 {
        Some((plain(), p + 1))
    } else if b[p] == 3 || b[p] == 4 {
        match text_at(b, p + 1) {
            Some((aux, end)) => Some(
                (
                    if b[p] == 3 {
                        tagged(aux)
                    } else {
                        typed(aux)
                    },
                    end,
                ),
            ),
            None => None,
        }
    } else {
        None
    }
}

/// The term at `p`, its text and its type, and what comes after it.
pub open spec fn term_at(b: Seq<u8>, p: int) -> Option<(Seq<char>, TermKind, int)> {
    match text_at(b, p) {
        Some((value, q)) => match type_at(b, q) {
            Some((kind, end)) => Some((value, kind, end)),
            None => None,
        },
        None => None,
    }
}

/// The record at `p`, and what comes after it; nothing where no whole record
/// can be read.
pub open spec fn record_at(b: Seq<u8>, p: int) -> Option<(RecordView, int)> {
    if p < 0 || p >= b.len() {
        None
    } else if b[p] == 2 {
        match term_at(b, p + 1) {
            Some((value, kind, end)) => Some((RecordView::Term(value, kind), end)),
            None => None,
        }
    } else if b[p] == 0 || b[p] == 1 {
        if p + 13 > b.len() {
            None
        } else if b[p] == 0 {
            Some((RecordView::Insert(le32(b, p + 1), le32(b, p + 5), le32(b, p + 9)), p + 13))
        } else {
            Some((RecordView::Delete(le32(b, p + 1), le32(b, p + 5), le32(b, p + 9)), p + 13))
        }
    } else {
        None
    }
}

/// A record ends after it begins, within the log.
pub proof fn lemma_record_bounds(b: Seq<u8>, p: int)
    ensures
        record_at(b, p) matches Some((_, end)) ==> p < end <= b.len(),
{
}

/// What the log changes: the dictionary and the triples.
pub struct LogState {
    pub keys: Seq<Seq<char>>,
    pub triples: Set<IdTriple>,
    /// The number of changes of triples.
    pub applied: nat,
}

/// The text of the error when no triple can be added.
pub open spec fn store_full_text() -> Seq<char> {
    "the store is full"@
}

/// The state after a record.
pub open spec fn after_record(s: LogState, r: RecordView) -> Result<LogState, Seq<char>> {
    match r {
        RecordView::Term(v, k) => {
            let (id, keys) = interned(s.keys, (v, k));
            if id is Some {
                Ok(LogState { keys, triples: s.triples, applied: s.applied })
            } else {
                Err(dictionary_full_text())
            }
        },
        RecordView::Insert(a, b, c) => if s.triples.len() < u32::MAX {
            Ok(
                LogState {
                    keys: s.keys,
                    triples: s.triples.insert((a, b, c)),
                    applied: s.applied + 1,
                },
            )
        } else {
            Err(store_full_text())
        },
        RecordView::Delete(a, b, c) => Ok(
            LogState {
                keys: s.keys,
                triples: s.triples.remove((a, b, c)),
                applied: s.applied + 1,
            },
        ),
    }
}

/// The state after everything that can be read from `p` on, and where reading
/// ends.
pub open spec fn replayed(b: Seq<u8>, p: int, s: LogState) -> Result<(LogState, int), Seq<char>>
    decreases b.len() - p,
{
    match record_at(b, p) {
        None => Ok((s, p)),
        Some((r, end)) => match after_record(s, r) {
            Ok(t) => if p < end <= b.len() {
                replayed(b, end, t)
            } else {
                Ok((t, end))
            },
            Err(e) => Err(e),
        },
    }
}

/// The state after a list of records.
pub open spec fn after_records(s: LogState, rs: Seq<RecordView>) -> Result<LogState, Seq<char>>
    decreases rs.len(),
{
    if rs.len() == 0 {
        Ok(s)
    } else {
        match after_records(s, rs.drop_last()) {
            Ok(t) => after_record(t, rs.last()),
            Err(e) => Err(e),
        }
    }
}

/// How many of the records change a triple.
pub open spec fn change_count(rs: Seq<RecordView>) -> nat
    decreases rs.len(),
{
    if rs.len() == 0 {
        0
    } else {
        change_count(rs.drop_last()) + (if rs.last() is Term {
            0nat
        } else {
            1
        })
    }
}

/// What a replay did: the changes of triples, and the bytes that could not be
/// read.
#[derive(Debug, Default, Clone, Copy, PartialEq, Eq, Structural)]
pub struct Replay {
    pub applied: usize,
    pub discarded: u64,
}

/// The state of a store.
pub open spec fn state_of(store: &TripleStore, applied: nat) -> LogState {
    LogState { keys: store.dict.keys(), triples: store.triples(), applied }
}

fn read_text(b: &[u8], p: usize) -> (r: Option<(String, usize)>)
    requires
        p <= b@.len(),
    ensures
        match r {
            Some((s, end)) => text_at(b@, p as int) == Some((s@, end as int)) && end <= b@.len(),
            None => text_at(b@, p as int) is None,
        },
{
    let n: usize = b.len();
    if n - p < 4 {
        return None;
    }
    let len: usize = read_u32(b, p) as usize;
    if n - p - 4 < len {
        return None;
    }
    let end: usize = p + 4 + len;
    match utf8_text(slice_subrange(b, p + 4, end)) {
        Some(s) => {
            proof {
                vstd::utf8::encode_utf8_valid_utf8(s@);
                vstd::utf8::encode_utf8_decode_utf8(s@);
            }
            Some((owned(s), end))
        },
        None => None,
    }
}

fn read_type(b: &[u8], p: usize) -> (r: Option<(TermType, usize)>)
    requires
        p <= b@.len(),
    ensures
        match r {
            Some((t, end)) => type_at(b@, p as int) == Some((t@, end as int)) && end <= b@.len(),
            None => type_at(b@, p as int) is None,
        },
{
    if p >= b.len() {
        return None;
    }
    let tag: u8 = b[p];
    if tag == 0 {
        Some((TermType::Iri, p + 1))
    } else if tag == 1 {
        Some((TermType::BlankNode, p + 1))
    } else if tag == 2 {
        Some((TermType::literal_plain(), p + 1))
    } else if tag == 3 || tag == 4 {
        match read_text(b, p + 1) {
            Some((aux, end)) => {
                let t: TermType = if tag == 3 {
                    TermType::literal_lang(aux)
                } else {
                    TermType::literal_datatype(aux)
                };
                Some((t, end))
            },
            None => None,
        }
    } else {
        None
    }
}

/// Reads a term, after its tag; nothing where no whole term stands.
pub fn read_term(b: &[u8], p: usize) -> (r: Option<(String, TermType, usize)>)
    ensures
        match r {
            Some((v, t, end)) => term_at(b@, p as int) == Some((v@, t@, end as int)) && p < end
                <= b@.len(),
            None => term_at(b@, p as int) is None,
        },
{
    if p > b.len() {
        return None;
    }
    match read_text(b, p) {
        Some((value, q)) => match read_type(b, q) {
            Some((typ, end)) => Some((value, typ, end)),
            None => None,
        },
        None => None,
    }
}

impl Wal {
    /// Replays a log onto a store. What was logged before a crash is applied; a tail
    /// that cannot be read is counted, so that it can be cut off.
    pub fn replay(log: &[u8], store: &mut TripleStore) -> (res: Result<Replay, String>)
        requires
            old(store).wf(),
        ensures
            final(store).wf(),
            match res {
                Ok(r) => replayed(log@, 0, state_of(&*old(store), 0)) == Ok::<(LogState, int), Seq<char>>(
                    (state_of(&*final(store), r.applied as nat), log@.len() - r.discarded),
                ),
                Err(e) => replayed(log@, 0, state_of(&*old(store), 0)) == Err::<(LogState, int), Seq<char>>(
                    e@,
                ),
            },
    {
        let ghost b = log@;
        let ghost start = state_of(store, 0);
        let n: usize = log.len();
        let mut p: usize = 0;
        let mut applied: usize = 0;
        while p < n
            invariant
                b == log@,
                n == b.len(),
                p <= n,
                applied <= p,
                store.wf(),
                start == state_of(&*old(store), 0),
                replayed(b, 0, start) == replayed(b, p as int, state_of(store, applied as nat)),
            decreases n - p,
        {
            let tag: u8 = log[p];
            if tag == 2 {
                match read_term(log, p + 1) {
                    Some((value, typ, end)) => {
                        let id: Option<u32> = intern(&mut store.dict, value.as_str(), typ);
                        if id.is_none() {
                            return Err(owned("the dictionary is full"));
                        }
                        p = end;
                    },
                    None => {
                        return Ok(Replay { applied, discarded: (n - p) as u64 });
                    },
                }
            } else if tag == 0 || tag == 1 {
                if n - p < 13 {
                    return Ok(Replay { applied, discarded: (n - p) as u64 });
                }
                let s: u32 = read_u32(log, p + 1);
                let q: u32 = read_u32(log, p + 5);
                let o: u32 = read_u32(log, p + 9);
                if tag == 0 {
                    if store.triple_count() >= 0xFFFF_FFFF {
                        return Err(owned("the store is full"));
                    }
                    store.insert_triple(s, q, o);
                } else {
                    store.delete_triple(s, q, o);
                }
                applied = applied + 1;
                p = p + 13;
            } else {
                return Ok(Replay { applied, discarded: (n - p) as u64 });
            }
        }
        Ok(Replay { applied, discarded: 0 })
    }
}

// --- What the log keeps ----------------------------------------------------------------

/// The lengths in a record fit their fields.
pub open spec fn fits_log(r: RecordView) -> bool {
    match r {
        RecordView::Term(v, k) => encode_utf8(v).len() <= u32::MAX && match k {
            TermKind::Literal { datatype, lang } => match (lang, datatype) {
                (Some(l), _) => encode_utf8(l).len() <= u32::MAX,
                (None, Some(d)) => encode_utf8(d).len() <= u32::MAX,
                (None, None) => true,
            },
            _ => true,
        },
        _ => true,
    }
}

/// A record as it is read back. A language leaves no room for a datatype, which
/// makes no difference to the term.
pub open spec fn as_read(r: RecordView) -> RecordView {
    match r {
        RecordView::Term(v, TermKind::Literal { datatype: _, lang: Some(l) }) => RecordView::Term(
            v,
            tagged(l),
        ),
        _ => r,
    }
}

proof fn lemma_text_reads(head: Seq<u8>, s: Seq<char>, tail: Seq<u8>)
    requires
        encode_utf8(s).len() <= u32::MAX,
    ensures
        text_at(head + text_bytes(s) + tail, head.len() as int) == Some(
            (s, (head.len() + text_bytes(s).len()) as int),
        ),
{
    let e = encode_utf8(s);
    let len = vstd::bytes::spec_u32_to_le_bytes(e.len() as u32);
    let b = head + text_bytes(s) + tail;
    lemma_le32(head, e.len() as u32, e + tail);
    assert(b =~= head + len + (e + tail));
    let p = head.len() as int;
    assert(b.subrange(p + 4, p + 4 + e.len()) =~= e);
    vstd::utf8::encode_utf8_valid_utf8(s);
    vstd::utf8::encode_utf8_decode_utf8(s);
}

proof fn lemma_type_reads(head: Seq<u8>, v: Seq<char>, k: TermKind, tail: Seq<u8>)
    requires
        fits_log(RecordView::Term(v, k)),
    ensures
        type_at(head + type_bytes(k) + tail, head.len() as int) == Some(
            (as_read(RecordView::Term(v, k))->Term_1, (head.len() + type_bytes(k).len()) as int),
        ),
{
    let b = head + type_bytes(k) + tail;
    let p = head.len() as int;
    match k {
        TermKind::Iri => {
            assert(b[p] == 0);
        },
        TermKind::BlankNode => {
            assert(b[p] == 1);
        },
        TermKind::Literal { datatype, lang } => match (lang, datatype) {
            (Some(l), _) => {
                lemma_text_reads(head.push(3), l, tail);
                assert(b =~= head.push(3) + text_bytes(l) + tail);
                assert(b[p] == 3);
            },
            (None, Some(d)) => {
                lemma_text_reads(head.push(4), d, tail);
                assert(b =~= head.push(4) + text_bytes(d) + tail);
                assert(b[p] == 4);
            },
            (None, None) => {
                assert(b[p] == 2);
            },
        },
    }
}

/// A record that was written is read back, wherever it stands.
pub proof fn law_record_reads(head: Seq<u8>, r: RecordView, tail: Seq<u8>)
    requires
        fits_log(r),
    ensures
        record_at(head + record_bytes(r) + tail, head.len() as int) == Some(
            (as_read(r), (head.len() + record_bytes(r).len()) as int),
        ),
{
    let b = head + record_bytes(r) + tail;
    let p = head.len() as int;
    match r {
        RecordView::Term(v, k) => {
            let h = head.push(2);
            lemma_term_reads(h, v, k, tail);
            assert(b =~= h + term_bytes(v, k) + tail);
            assert(b[p] == 2);
        },
        RecordView::Insert(x, y, z) => {
            lemma_ids_read(head, 0, x, y, z, tail);
        },
        RecordView::Delete(x, y, z) => {
            lemma_ids_read(head, 1, x, y, z, tail);
        },
    }
}

proof fn lemma_ids_read(head: Seq<u8>, tag: u8, x: u32, y: u32, z: u32, tail: Seq<u8>)
    ensures
        ({
            let b = head + (seq![tag] + id_bytes(x, y, z)) + tail;
            let p = head.len() as int;
            &&& b[p] == tag
            &&& p + 13 <= b.len()
            &&& id_bytes(x, y, z).len() == 12
            &&& le32(b, p + 1) == x
            &&& le32(b, p + 5) == y
            &&& le32(b, p + 9) == z
        }),
{
    let b = head + (seq![tag] + id_bytes(x, y, z)) + tail;
    let bx = vstd::bytes::spec_u32_to_le_bytes(x);
    let by = vstd::bytes::spec_u32_to_le_bytes(y);
    let bz = vstd::bytes::spec_u32_to_le_bytes(z);
    let h = head.push(tag);
    lemma_le32(h, x, by + bz + tail);
    assert(b =~= h + bx + (by + bz + tail));
    lemma_le32(h + bx, y, bz + tail);
    assert(b =~= h + bx + by + (bz + tail));
    lemma_le32(h + bx + by, z, tail);
    assert(b =~= h + bx + by + bz + tail);
}

/// Reading back a term finds the same entry of the dictionary.
proof fn lemma_as_read(s: LogState, r: RecordView)
    ensures
        after_record(s, as_read(r)) == after_record(s, r),
{
}

proof fn lemma_replay_records(head: Seq<u8>, rs: Seq<RecordView>, tail: Seq<u8>, s: LogState)
    requires
        forall|i: int| 0 <= i < rs.len() ==> fits_log(#[trigger] rs[i]),
    ensures
        replayed(head + log_bytes(rs) + tail, head.len() as int, s) == (match after_records(s, rs) {
            Ok(t) => replayed(
                head + log_bytes(rs) + tail,
                (head.len() + log_bytes(rs).len()) as int,
                t,
            ),
            Err(e) => Err(e),
        }),
    decreases rs.len(),
{
    if rs.len() > 0 {
        let front = rs.drop_last();
        let r = rs.last();
        let more = record_bytes(r) + tail;
        assert(head + log_bytes(rs) + tail =~= head + log_bytes(front) + more);
        assert forall|i: int| 0 <= i < front.len() implies fits_log(#[trigger] front[i]) by {
            assert(front[i] == rs[i]);
        }
        lemma_replay_records(head, front, more, s);
        if let Ok(t) = after_records(s, front) {
            let h = head + log_bytes(front);
            let b = head + log_bytes(rs) + tail;
            assert(b =~= h + record_bytes(r) + tail);
            law_record_reads(h, r, tail);
            lemma_as_read(t, r);
            lemma_record_bounds(b, h.len() as int);
        }
    } else {
        assert(head + log_bytes(rs) + tail =~= head + tail);
    }
}

/// Replaying what was logged makes exactly the logged changes, in order, and
/// discards nothing.
pub proof fn law_replay_repeats_log(rs: Seq<RecordView>, s: LogState)
    requires
        forall|i: int| 0 <= i < rs.len() ==> fits_log(#[trigger] rs[i]),
    ensures
        replayed(log_bytes(rs), 0, s) == (match after_records(s, rs) {
            Ok(t) => Ok::<(LogState, int), Seq<char>>((t, log_bytes(rs).len() as int)),
            Err(e) => Err(e),
        }),
{
    let none = Seq::<u8>::empty();
    lemma_replay_records(none, rs, none, s);
    assert(none + log_bytes(rs) + none =~= log_bytes(rs));
}

/// A term is found in all bytes that agree with these up to its end.
proof fn lemma_term_local(a: Seq<u8>, b: Seq<u8>, p: int, v: int)
    requires
        0 <= v <= a.len(),
        v <= b.len(),
        a.take(v) == b.take(v),
        term_at(a, p) matches Some((_, _, end)) && end <= v,
    ensures
        term_at(b, p) == term_at(a, p),
{
    assert forall|i: int| 0 <= i < v implies a[i] == b[i] by {
        assert(a[i] == a.take(v)[i]);
        assert(b[i] == b.take(v)[i]);
    }
    assert forall|i: int, j: int| 0 <= i <= j <= v implies #[trigger] a.subrange(i, j) == b.subrange(
        i,
        j,
    ) by {
        assert(a.subrange(i, j) =~= b.subrange(i, j));
    }
    let q = (text_at(a, p)->0).1;
    assert(a.subrange(p, p + 4) == b.subrange(p, p + 4));
    assert(a.subrange(p + 4, q) == b.subrange(p + 4, q));
    assert(text_at(b, p) == text_at(a, p));
    assert(a[q] == b[q]);
    if a[q] == 3 || a[q] == 4 {
        let e = (text_at(a, q + 1)->0).1;
        assert(a.subrange(q + 1, q + 5) == b.subrange(q + 1, q + 5));
        assert(a.subrange(q + 5, e) == b.subrange(q + 5, e));
        assert(text_at(b, q + 1) == text_at(a, q + 1));
    }
}

/// A record is found in every log that agrees with this one up to its end.
proof fn lemma_record_local(a: Seq<u8>, b: Seq<u8>, p: int, v: int)
    requires
        0 <= v <= a.len(),
        v <= b.len(),
        a.take(v) == b.take(v),
        record_at(a, p) matches Some((_, end)) && end <= v,
    ensures
        record_at(b, p) == record_at(a, p),
{
    assert forall|i: int| 0 <= i < v implies a[i] == b[i] by {
        assert(a[i] == a.take(v)[i]);
        assert(b[i] == b.take(v)[i]);
    }
    assert forall|i: int, j: int| 0 <= i <= j <= v implies #[trigger] a.subrange(i, j) == b.subrange(
        i,
        j,
    ) by {
        assert(a.subrange(i, j) =~= b.subrange(i, j));
    }
    assert(a[p] == b[p]);
    if a[p] == 2 {
        lemma_term_local(a, b, p + 1, v);
    } else {
        assert(a.subrange(p + 1, p + 5) == b.subrange(p + 1, p + 5));
        assert(a.subrange(p + 5, p + 9) == b.subrange(p + 5, p + 9));
        assert(a.subrange(p + 9, p + 13) == b.subrange(p + 9, p + 13));
    }
}

/// A record that was torn is not read: what is left of it, wherever it stands, is no
/// record.
pub proof fn law_torn_record(head: Seq<u8>, r: RecordView, k: int)
    requires
        fits_log(r),
        0 <= k < record_bytes(r).len(),
    ensures
        record_at(head + record_bytes(r).take(k), head.len() as int) is None,
        record_at(record_bytes(r).take(k), 0) is None,
{
    lemma_torn_record(head, r, k);
    lemma_torn_record(Seq::empty(), r, k);
    assert(Seq::<u8>::empty() + record_bytes(r).take(k) =~= record_bytes(r).take(k));
}

proof fn lemma_torn_record(head: Seq<u8>, r: RecordView, k: int)
    requires
        fits_log(r),
        0 <= k < record_bytes(r).len(),
    ensures
        record_at(head + record_bytes(r).take(k), head.len() as int) is None,
{
    let a = head + record_bytes(r).take(k);
    let b = head + record_bytes(r) + Seq::<u8>::empty();
    let p = head.len() as int;
    law_record_reads(head, r, Seq::empty());
    lemma_record_bounds(a, p);
    assert(a.take(p + k) =~= b.take(p + k));
    if record_at(a, p) is Some {
        lemma_record_local(a, b, p, p + k);
    }
}

/// The bytes of a term, after its tag.
pub open spec fn term_bytes(v: Seq<char>, k: TermKind) -> Seq<u8> {
    text_bytes(v) + type_bytes(k)
}

/// A term that was written is read back, wherever it stands, and what is left of one
/// that was torn is not read.
pub proof fn law_term_reads(head: Seq<u8>, v: Seq<char>, kind: TermKind, tail: Seq<u8>, k: int)
    requires
        fits_log(RecordView::Term(v, kind)),
        0 <= k < term_bytes(v, kind).len(),
    ensures
        term_at(head + term_bytes(v, kind) + tail, head.len() as int) == Some(
            (
                v,
                as_read(RecordView::Term(v, kind))->Term_1,
                (head.len() + term_bytes(v, kind).len()) as int,
            ),
        ),
        term_at(term_bytes(v, kind).take(k), 0) is None,
{
    lemma_term_reads(head, v, kind, tail);
    let none = Seq::<u8>::empty();
    lemma_term_reads(none, v, kind, none);
    let b = none + term_bytes(v, kind) + none;
    let a = term_bytes(v, kind).take(k);
    assert(a.take(k) =~= b.take(k));
    if term_at(a, 0) is Some {
        lemma_term_local(a, b, 0, k);
    }
}

proof fn lemma_term_reads(head: Seq<u8>, v: Seq<char>, kind: TermKind, tail: Seq<u8>)
    requires
        fits_log(RecordView::Term(v, kind)),
    ensures
        term_at(head + term_bytes(v, kind) + tail, head.len() as int) == Some(
            (
                v,
                as_read(RecordView::Term(v, kind))->Term_1,
                (head.len() + term_bytes(v, kind).len()) as int,
            ),
        ),
{
    let b = head + term_bytes(v, kind) + tail;
    lemma_text_reads(head, v, type_bytes(kind) + tail);
    assert(b =~= head + text_bytes(v) + (type_bytes(kind) + tail));
    lemma_type_reads(head + text_bytes(v), v, kind, tail);
    assert(b =~= head + text_bytes(v) + type_bytes(kind) + tail);
}

proof fn lemma_replay_end(b: Seq<u8>, p: int, s: LogState)
    requires
        0 <= p <= b.len(),
        replayed(b, p, s) is Ok,
    ensures
        p <= (replayed(b, p, s)->Ok_0).1 <= b.len(),
        record_at(b, (replayed(b, p, s)->Ok_0).1) is None,
    decreases b.len() - p,
{
    lemma_record_bounds(b, p);
    if let Some((r, end)) = record_at(b, p) {
        lemma_replay_end(b, end, after_record(s, r)->Ok_0);
    }
}

proof fn lemma_replay_same(a: Seq<u8>, b: Seq<u8>, p: int, v: int, s: LogState)
    requires
        0 <= p <= v <= a.len(),
        v <= b.len(),
        a.take(v) == b.take(v),
        replayed(a, p, s) is Ok,
        (replayed(a, p, s)->Ok_0).1 == v,
    ensures
        replayed(b, p, s) == replayed(b, v, (replayed(a, p, s)->Ok_0).0),
    decreases v - p,
{
    lemma_record_bounds(a, p);
    if let Some((r, end)) = record_at(a, p) {
        let t = after_record(s, r)->Ok_0;
        lemma_replay_end(a, end, t);
        lemma_record_local(a, b, p, v);
        lemma_replay_same(a, b, end, v, t);
    }
}

proof fn lemma_applied(s: LogState, rs: Seq<RecordView>)
    ensures
        after_records(s, rs) matches Ok(t) ==> t.applied == s.applied + change_count(rs),
    decreases rs.len(),
{
    if rs.len() > 0 {
        lemma_applied(s, rs.drop_last());
    }
}

/// A log of whole records with a tail that does not begin with one: the records take
/// effect in their order, every change of a triple is counted, and reading ends where
/// the tail begins.
pub proof fn law_replay_stops_at_tail(rs: Seq<RecordView>, tail: Seq<u8>, s: LogState)
    requires
        forall|i: int| 0 <= i < rs.len() ==> fits_log(#[trigger] rs[i]),
        record_at(log_bytes(rs) + tail, log_bytes(rs).len() as int) is None,
    ensures
        match after_records(s, rs) {
            Ok(t) => replayed(log_bytes(rs) + tail, 0, s) == Ok::<(LogState, int), Seq<char>>(
                (t, log_bytes(rs).len() as int),
            ) && t.applied == s.applied + change_count(rs),
            Err(e) => replayed(log_bytes(rs) + tail, 0, s) == Err::<(LogState, int), Seq<char>>(e),
        },
{
    let none = Seq::<u8>::empty();
    lemma_replay_records(none, rs, tail, s);
    assert(none + log_bytes(rs) + tail =~= log_bytes(rs) + tail);
    lemma_applied(s, rs);
}

/// Cutting off what could not be read loses nothing, and what is logged after
/// that is replayed.
pub proof fn law_truncated_log_continues(b: Seq<u8>, s: LogState, more: Seq<RecordView>)
    requires
        replayed(b, 0, s) is Ok,
        forall|i: int| 0 <= i < more.len() ==> fits_log(#[trigger] more[i]),
    ensures
        ({
            let (t, valid) = replayed(b, 0, s)->Ok_0;
            let cut = b.take(valid);
            &&& replayed(cut, 0, s) == Ok::<(LogState, int), Seq<char>>((t, valid))
            &&& replayed(cut + log_bytes(more), 0, s) == (match after_records(t, more) {
                Ok(u) => Ok::<(LogState, int), Seq<char>>((u, valid + log_bytes(more).len())),
                Err(e) => Err(e),
            })
        }),
{
    let (t, valid) = replayed(b, 0, s)->Ok_0;
    let cut = b.take(valid);
    lemma_replay_end(b, 0, s);
    assert(cut.take(valid) =~= b.take(valid));
    lemma_replay_same(b, cut, 0, valid, s);
    let longer = cut + log_bytes(more);
    assert(longer.take(valid) =~= b.take(valid));
    lemma_replay_same(b, longer, 0, valid, s);
    let none = Seq::<u8>::empty();
    lemma_replay_records(cut, more, none, t);
    assert(cut + log_bytes(more) + none =~= longer);
}

} // verus!
