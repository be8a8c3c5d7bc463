//! Updates.
//!
//! The operations of an update take effect in their order, in the store and in
//! the log. They are collected first, as records of the log: a term where it is
//! named first, then the triple. A refused update changes no triple and logs
//! nothing.

use crate::hypertrie::csr::IdTriple;
use crate::hypertrie::dictionary::{
    key_id, key_kind, key_value, law_plain_is_xsd_string, plain, readable, term_key, typed, xsd_string,
    Dictionary, TermKind, TermType,
};
use crate::hypertrie::query::TripleStore;
use crate::sparql::algebra::{
    ops_view, triples_view, Node, NodeView, Triple, TripleView, UpdateOp, UpdateOpView,
};
use crate::sparql::bind::{dictionary_full_text, intern, interned};
use crate::sparql::paths::{node_id, node_lookup};
use crate::text::owned;
use crate::wal::{
    after_records, change_count, fits_log, law_replay_repeats_log, log_bytes, replayed,
    store_full_text, LogState, RecordView, Wal,
};
use vstd::prelude::*;

verus! {

/// The records of what the operations ask for or an error, and the dictionary after
/// that.
pub type Collected = (Result<Seq<RecordView>, Seq<char>>, Seq<Seq<char>>);

/// The text of the error for a blank node.
pub open spec fn blank_text() -> Seq<char> {
    "Blank nodes in updates are not supported"@
}

/// The text of the error for any other operation.
pub open spec fn operation_text() -> Seq<char> {
    "Only INSERT DATA and DELETE DATA are supported"@
}

/// The term at a position of a triple that is to be stored.
pub open spec fn data_term(n: NodeView) -> Option<(Seq<char>, TermKind)> {
    match n {
        NodeView::Known(v, k) => Some((v, k)),
        _ => None,
    }
}

/// The type that a term is logged with. A plain literal has the datatype of strings.
pub open spec fn logged_kind(k: TermKind) -> TermKind {
    if k == plain() {
        typed(xsd_string())
    } else {
        k
    }
}

/// The record of a term, if the dictionary does not have it yet.
pub open spec fn new_term(keys: Seq<Seq<char>>, term: (Seq<char>, TermKind)) -> Seq<RecordView> {
    if keys.contains(term_key(term.0, term.1)) {
        Seq::empty()
    } else {
        seq![RecordView::Term(term.0, logged_kind(term.1))]
    }
}

/// The records with one more triple to insert: its new terms, then the triple.
pub open spec fn insert_one(before: Seq<RecordView>, keys: Seq<Seq<char>>, t: TripleView) -> Collected {
    match (data_term(t.subject), data_term(t.predicate), data_term(t.object)) {
        (Some(s), Some(p), Some(o)) => {
            let (a, k1) = interned(keys, s);
            let (b, k2) = interned(k1, p);
            let (c, k3) = interned(k2, o);
            if a is None {
                (Err(dictionary_full_text()), k1)
            } else if b is None {
                (Err(dictionary_full_text()), k2)
            } else if c is None {
                (Err(dictionary_full_text()), k3)
            } else {
                (
                    Ok(
                        (before + new_term(keys, s) + new_term(k1, p) + new_term(k2, o)).push(
                            RecordView::Insert(a->0, b->0, c->0),
                        ),
                    ),
                    k3,
                )
            }
        },
        _ => (Err(blank_text()), keys),
    }
}

/// The identifiers of the terms of a triple; nothing if one is unknown.
pub open spec fn triple_id(keys: Seq<Seq<char>>, t: TripleView) -> Option<IdTriple> {
    match (node_id(keys, t.subject), node_id(keys, t.predicate), node_id(keys, t.object)) {
        (Some(s), Some(p), Some(o)) => Some((s, p, o)),
        _ => None,
    }
}

/// The records with one more triple to delete. A triple with an unknown term is not
/// stored, and nothing is to be done.
pub open spec fn delete_one(before: Seq<RecordView>, keys: Seq<Seq<char>>, t: TripleView) -> Collected {
    match (data_term(t.subject), data_term(t.predicate), data_term(t.object)) {
        (Some(_), Some(_), Some(_)) => (
            match triple_id(keys, t) {
                Some((s, p, o)) => Ok(before.push(RecordView::Delete(s, p, o))),
                None => Ok(before),
            },
            keys,
        ),
        _ => (Err(blank_text()), keys),
    }
}

/// The records after the first `n` triples of an operation.
pub open spec fn collect_triples(
    before: Seq<RecordView>,
    keys: Seq<Seq<char>>,
    insert: bool,
    ts: Seq<TripleView>,
    n: int,
) -> Collected
    decreases n,
{
    if n <= 0 {
        (Ok(before), keys)
    } else {
        let (r, k) = collect_triples(before, keys, insert, ts, n - 1);
        match r {
            Ok(x) => if insert {
                insert_one(x, k, ts[n - 1])
            } else {
                delete_one(x, k, ts[n - 1])
            },
            Err(e) => (Err(e), k),
        }
    }
}

/// The records after the first `n` operations.
pub open spec fn collect_ops(keys: Seq<Seq<char>>, ops: Seq<UpdateOpView>, n: int) -> Collected
    decreases n,
{
    if n <= 0 {
        (Ok(Seq::empty()), keys)
    } else {
        let (r, k) = collect_ops(keys, ops, n - 1);
        match r {
            Ok(before) => match ops[n - 1] {
                UpdateOpView::Insert(ts) => collect_triples(before, k, true, ts, ts.len() as int),
                UpdateOpView::Delete(ts) => collect_triples(before, k, false, ts, ts.len() as int),
                UpdateOpView::Other => (Err(operation_text()), k),
            },
            Err(e) => (Err(e), k),
        }
    }
}

/// How many triples are to be inserted.
pub open spec fn insert_count(rs: Seq<RecordView>) -> nat
    decreases rs.len(),
{
    if rs.len() == 0 {
        0
    } else {
        insert_count(rs.drop_last()) + (if rs.last() is Insert {
            1nat
        } else {
            0
        })
    }
}

/// The records of an update, and the dictionary after that. The store must have
/// room for what is inserted.
pub open spec fn update_changes(keys: Seq<Seq<char>>, stored: nat, ops: Seq<UpdateOpView>) -> Collected {
    let (r, k) = collect_ops(keys, ops, ops.len() as int);
    match r {
        Ok(rs) => if stored + insert_count(rs) <= u32::MAX {
            (Ok(rs), k)
        } else {
            (Err(store_full_text()), k)
        },
        Err(e) => (Err(e), k),
    }
}

/// The triples that an operation names and the dictionary knows.
pub open spec fn op_triples(keys: Seq<Seq<char>>, ts: Seq<TripleView>) -> Set<IdTriple> {
    Set::new(|x: IdTriple| exists|i: int| 0 <= i < ts.len() && triple_id(keys, #[trigger] ts[i]) == Some(x))
}

/// The triples after the first `n` operations, each of which takes effect on what
/// the ones before it left.
pub open spec fn triples_after(
    keys: Seq<Seq<char>>,
    set: Set<IdTriple>,
    ops: Seq<UpdateOpView>,
    n: int,
) -> Set<IdTriple>
    decreases n,
{
    if n <= 0 {
        set
    } else {
        let before = triples_after(keys, set, ops, n - 1);
        let known = collect_ops(keys, ops, n).1;
        match ops[n - 1] {
            UpdateOpView::Insert(ts) => before.union(op_triples(known, ts)),
            UpdateOpView::Delete(ts) => before.difference(op_triples(known, ts)),
            UpdateOpView::Other => before,
        }
    }
}

/// The triples after one record.
pub open spec fn after_change(set: Set<IdTriple>, r: RecordView) -> Set<IdTriple> {
    match r {
        RecordView::Insert(s, p, o) => set.insert((s, p, o)),
        RecordView::Delete(s, p, o) => set.remove((s, p, o)),
        RecordView::Term(_, _) => set,
    }
}

/// The triples after the records, one after the other.
pub open spec fn changed(set: Set<IdTriple>, rs: Seq<RecordView>) -> Set<IdTriple>
    decreases rs.len(),
{
    if rs.len() == 0 {
        set
    } else {
        after_change(changed(set, rs.drop_last()), rs.last())
    }
}

// --- The log ---------------------------------------------------------------------------

/// The record of a term.
pub open spec fn term_record(key: Seq<char>) -> RecordView {
    RecordView::Term(key_value(key), key_kind(key))
}

/// The records of terms.
pub open spec fn term_records(keys: Seq<Seq<char>>) -> Seq<RecordView> {
    Seq::new(keys.len(), |i: int| term_record(keys[i]))
}

/// What an update logs: the terms of the dictionary that are not in the log yet, then
/// its own records.
pub open spec fn update_records(logged: nat, keys: Seq<Seq<char>>, rs: Seq<RecordView>) -> Seq<RecordView> {
    term_records(keys.skip(logged as int)) + rs
}

// --- Collecting ------------------------------------------------------------------------

/// What is to be logged and done.
enum Change {
    Term(String, TermType),
    Insert(u32, u32, u32),
    Delete(u32, u32, u32),
}

impl View for Change {
    type V = RecordView;

    closed spec fn view(&self) -> RecordView {
        match self {
            Change::Term(v, t) => RecordView::Term(v@, t@),
            Change::Insert(s, p, o) => RecordView::Insert(*s, *p, *o),
            Change::Delete(s, p, o) => RecordView::Delete(*s, *p, *o),
        }
    }
}

spec fn changes_view(cs: Seq<Change>) -> Seq<RecordView> {
    cs.map_values(|c: Change| c@)
}

fn known<'a>(n: &'a Node) -> (r: Option<(&'a String, &'a TermType)>)
    ensures
        match r {
            Some((v, t)) => data_term(n@) == Some((v@, t@)),
            None => data_term(n@) is None,
        },
{
    match n {
        Node::Known(v, t) => Some((v, t)),
        _ => None,
    }
}

/// The type that a term is logged with.
fn logged_type(t: &TermType) -> (r: TermType)
    ensures
        r@ == logged_kind(t@),
{
    match t {
        TermType::Literal { datatype: None, lang: None } => TermType::literal_datatype(
            owned("http://www.w3.org/2001/XMLSchema#string"),
        ),
        _ => t.clone(),
    }
}

/// Gives a term its identifier; a new term is recorded.
fn take_term(out: &mut Vec<Change>, dict: &mut Dictionary, v: &String, t: &TermType) -> (r: Option<u32>)
    requires
        old(dict).wf(),
    ensures
        final(dict).wf(),
        interned(old(dict).keys(), (v@, t@)) == (r, final(dict).keys()),
        r is Some ==> changes_view(final(out)@) == changes_view(old(out)@) + new_term(
            old(dict).keys(),
            (v@, t@),
        ),
{
    let ghost before = changes_view(out@);
    let n: usize = dict.len();
    let id: Option<u32> = intern(dict, v.as_str(), t.clone());
    if dict.len() > n {
        out.push(Change::Term(v.clone(), logged_type(t)));
        assert(changes_view(out@) =~= before + seq![RecordView::Term(v@, logged_kind(t@))]);
    } else {
        assert(changes_view(out@) =~= before + Seq::<RecordView>::empty());
    }
    id
}

fn take_insert(out: &mut Vec<Change>, dict: &mut Dictionary, t: &Triple) -> (r: Result<(), String>)
    requires
        old(dict).wf(),
    ensures
        final(dict).wf(),
        match r {
            Ok(_) => insert_one(changes_view(old(out)@), old(dict).keys(), t@) == (
                Ok::<Seq<RecordView>, Seq<char>>(changes_view(final(out)@)),
                final(dict).keys(),
            ),
            Err(e) => insert_one(changes_view(old(out)@), old(dict).keys(), t@) == (
                Err::<Seq<RecordView>, Seq<char>>(e@),
                final(dict).keys(),
            ),
        },
{
    match (known(&t.subject), known(&t.predicate), known(&t.object)) {
        (Some((sv, st)), Some((pv, pt)), Some((ov, ot))) => {
            let s: u32 = match take_term(out, dict, sv, st) {
                Some(x) => x,
                None => {
                    return Err(owned("the dictionary is full"));
                },
            };
            let p: u32 = match take_term(out, dict, pv, pt) {
                Some(x) => x,
                None => {
                    return Err(owned("the dictionary is full"));
                },
            };
            let o: u32 = match take_term(out, dict, ov, ot) {
                Some(x) => x,
                None => {
                    return Err(owned("the dictionary is full"));
                },
            };
            let ghost before = changes_view(out@);
            out.push(Change::Insert(s, p, o));
            assert(changes_view(out@) =~= before.push(RecordView::Insert(s, p, o)));
            Ok(())
        },
        _ => Err(owned("Blank nodes in updates are not supported")),
    }
}

fn take_delete(out: &mut Vec<Change>, dict: &Dictionary, t: &Triple) -> (r: Result<(), String>)
    requires
        dict.wf(),
    ensures
        match r {
            Ok(_) => delete_one(changes_view(old(out)@), dict.keys(), t@) == (
                Ok::<Seq<RecordView>, Seq<char>>(changes_view(final(out)@)),
                dict.keys(),
            ),
            Err(e) => delete_one(changes_view(old(out)@), dict.keys(), t@) == (
                Err::<Seq<RecordView>, Seq<char>>(e@),
                dict.keys(),
            ),
        },
{
    if known(&t.subject).is_none() || known(&t.predicate).is_none() || known(&t.object).is_none() {
        return Err(owned("Blank nodes in updates are not supported"));
    }
    let s: Option<u32> = node_lookup(dict, &t.subject);
    let p: Option<u32> = node_lookup(dict, &t.predicate);
    let o: Option<u32> = node_lookup(dict, &t.object);
    if let (Some(a), Some(b), Some(c)) = (s, p, o) {
        let ghost before = changes_view(out@);
        out.push(Change::Delete(a, b, c));
        assert(changes_view(out@) =~= before.push(RecordView::Delete(a, b, c)));
    }
    Ok(())
}

proof fn lemma_triples_stuck(
    before: Seq<RecordView>,
    keys: Seq<Seq<char>>,
    insert: bool,
    ts: Seq<TripleView>,
    i: int,
    n: int,
)
    requires
        0 <= i <= n,
        collect_triples(before, keys, insert, ts, i).0 is Err,
    ensures
        collect_triples(before, keys, insert, ts, n) == collect_triples(before, keys, insert, ts, i),
    decreases n - i,
{
    if i < n {
        lemma_triples_stuck(before, keys, insert, ts, i, n - 1);
    }
}

proof fn lemma_ops_stuck(keys: Seq<Seq<char>>, ops: Seq<UpdateOpView>, i: int, n: int)
    requires
        0 <= i <= n,
        collect_ops(keys, ops, i).0 is Err,
    ensures
        collect_ops(keys, ops, n) == collect_ops(keys, ops, i),
    decreases n - i,
{
    if i < n {
        lemma_ops_stuck(keys, ops, i, n - 1);
    }
}

fn take_triples(out: &mut Vec<Change>, dict: &mut Dictionary, insert: bool, ts: &Vec<Triple>) -> (r: Result<
    (),
    String,
>)
    requires
        old(dict).wf(),
    ensures
        final(dict).wf(),
        ({
            let want = collect_triples(
                changes_view(old(out)@),
                old(dict).keys(),
                insert,
                triples_view(ts@),
                ts@.len() as int,
            );
            match r {
                Ok(_) => want == (
                    Ok::<Seq<RecordView>, Seq<char>>(changes_view(final(out)@)),
                    final(dict).keys(),
                ),
                Err(e) => want == (Err::<Seq<RecordView>, Seq<char>>(e@), final(dict).keys()),
            }
        }),
{
    let ghost start = changes_view(out@);
    let ghost keys = dict.keys();
    let ghost tv = triples_view(ts@);
    let n: usize = ts.len();
    let mut i: usize = 0;
    while i < n
        invariant
            start == changes_view(old(out)@),
            keys == old(dict).keys(),
            tv == triples_view(ts@),
            n == ts@.len(),
            i <= n,
            dict.wf(),
            collect_triples(start, keys, insert, tv, i as int) == (
                Ok::<Seq<RecordView>, Seq<char>>(changes_view(out@)),
                dict.keys(),
            ),
        decreases n - i,
    {
        assert(tv[i as int] == ts@[i as int]@);
        let step: Result<(), String> = if insert {
            take_insert(out, dict, &ts[i])
        } else {
            take_delete(out, dict, &ts[i])
        };
        match step {
            Ok(_) => {},
            Err(e) => {
                proof {
                    assert(collect_triples(start, keys, insert, tv, i + 1) == (
                        Err::<Seq<RecordView>, Seq<char>>(e@),
                        dict.keys(),
                    ));
                    lemma_triples_stuck(start, keys, insert, tv, i + 1, n as int);
                }
                return Err(e);
            },
        }
        i += 1;
    }
    Ok(())
}

fn take_ops(dict: &mut Dictionary, ops: &Vec<UpdateOp>) -> (r: Result<Vec<Change>, String>)
    requires
        old(dict).wf(),
    ensures
        final(dict).wf(),
        ({
            let want = collect_ops(old(dict).keys(), ops_view(ops@), ops@.len() as int);
            match r {
                Ok(cs) => want == (
                    Ok::<Seq<RecordView>, Seq<char>>(changes_view(cs@)),
                    final(dict).keys(),
                ),
                Err(e) => want == (Err::<Seq<RecordView>, Seq<char>>(e@), final(dict).keys()),
            }
        }),
{
    let ghost keys = dict.keys();
    let ghost ov = ops_view(ops@);
    let n: usize = ops.len();
    let mut out: Vec<Change> = Vec::new();
    let mut i: usize = 0;
    assert(changes_view(out@) =~= Seq::<RecordView>::empty());
    while i < n
        invariant
            keys == old(dict).keys(),
            ov == ops_view(ops@),
            n == ops@.len(),
            i <= n,
            dict.wf(),
            collect_ops(keys, ov, i as int) == (
                Ok::<Seq<RecordView>, Seq<char>>(changes_view(out@)),
                dict.keys(),
            ),
        decreases n - i,
    {
        assert(ov[i as int] == ops@[i as int]@);
        let step: Result<(), String> = match &ops[i] {
            UpdateOp::Insert(ts) => take_triples(&mut out, dict, true, ts),
            UpdateOp::Delete(ts) => take_triples(&mut out, dict, false, ts),
            UpdateOp::Other => Err(owned("Only INSERT DATA and DELETE DATA are supported")),
        };
        match step {
            Ok(_) => {},
            Err(e) => {
                proof {
                    assert(collect_ops(keys, ov, i + 1) == (
                        Err::<Seq<RecordView>, Seq<char>>(e@),
                        dict.keys(),
                    ));
                    lemma_ops_stuck(keys, ov, i + 1, n as int);
                }
                return Err(e);
            },
        }
        i += 1;
    }
    Ok(out)
}

// --- What the operations name --------------------------------------------------------------

/// A key keeps its identifier as the dictionary grows.
proof fn lemma_id_stays(keys: Seq<Seq<char>>, more: Seq<Seq<char>>, key: Seq<char>)
    requires
        keys.is_prefix_of(more),
        more.no_duplicates(),
        keys.contains(key),
    ensures
        key_id(more, key) == key_id(keys, key),
{
    let i = keys.index_of(key);
    assert(keys[i] == key && more[i] == key);
    assert(more.contains(key));
    let j = more.index_of(key);
    assert(more[j] == key);
    assert(i == j);
}

proof fn lemma_interned(keys: Seq<Seq<char>>, term: (Seq<char>, TermKind))
    requires
        keys.no_duplicates(),
    ensures
        ({
            let (id, more) = interned(keys, term);
            &&& keys.is_prefix_of(more)
            &&& more.no_duplicates()
            &&& id is Some ==> id == key_id(more, term_key(term.0, term.1))
        }),
{
    let key = term_key(term.0, term.1);
    let more = interned(keys, term).1;
    assert(keys =~= more.take(keys.len() as int));
    if !keys.contains(key) && keys.len() < u32::MAX {
        assert(more[keys.len() as int] == key);
        assert(more.contains(key));
        let j = more.index_of(key);
        assert(more[j] == key);
        if j < keys.len() {
            assert(keys[j] == key);
        }
    }
}

proof fn lemma_prefix_twice(a: Seq<Seq<char>>, b: Seq<Seq<char>>, c: Seq<Seq<char>>)
    requires
        a.is_prefix_of(b),
        b.is_prefix_of(c),
    ensures
        a.is_prefix_of(c),
{
    assert(a =~= c.take(a.len() as int));
}

/// A triple keeps its identifiers as the dictionary grows.
proof fn lemma_triple_stays(keys: Seq<Seq<char>>, more: Seq<Seq<char>>, t: TripleView)
    requires
        keys.is_prefix_of(more),
        more.no_duplicates(),
        triple_id(keys, t) is Some,
    ensures
        triple_id(more, t) == triple_id(keys, t),
{
    if let (NodeView::Known(sv, sk), NodeView::Known(pv, pk), NodeView::Known(ov, ok)) = (
        t.subject,
        t.predicate,
        t.object,
    ) {
        lemma_id_stays(keys, more, term_key(sv, sk));
        lemma_id_stays(keys, more, term_key(pv, pk));
        lemma_id_stays(keys, more, term_key(ov, ok));
    }
}

/// What is interned for a triple are its identifiers.
proof fn lemma_interned_triple(keys: Seq<Seq<char>>, before: Seq<RecordView>, t: TripleView)
    requires
        keys.no_duplicates(),
    ensures
        ({
            let (r, more) = insert_one(before, keys, t);
            &&& keys.is_prefix_of(more)
            &&& more.no_duplicates()
            &&& r is Ok ==> triple_id(more, t) is Some && forall|set: Set<IdTriple>|
                changed(set, r->Ok_0) == (#[trigger] changed(set, before)).insert(triple_id(more, t)->0)
        }),
{
    match (data_term(t.subject), data_term(t.predicate), data_term(t.object)) {
        (Some(s), Some(p), Some(o)) => {
            let k1 = interned(keys, s).1;
            let k2 = interned(k1, p).1;
            let k3 = interned(k2, o).1;
            lemma_interned(keys, s);
            lemma_interned(k1, p);
            lemma_interned(k2, o);
            lemma_prefix_twice(keys, k1, k2);
            lemma_prefix_twice(keys, k2, k3);
            lemma_prefix_twice(k1, k2, k3);
            if insert_one(before, keys, t).0 is Ok {
                lemma_id_stays(k1, k3, term_key(s.0, s.1));
                lemma_id_stays(k2, k3, term_key(p.0, p.1));
                let id = triple_id(k3, t)->0;
                let rs = insert_one(before, keys, t).0->Ok_0;
                let b1 = before + new_term(keys, s);
                let b2 = b1 + new_term(k1, p);
                let b3 = b2 + new_term(k2, o);
                assert(rs.drop_last() =~= b3);
                assert forall|set: Set<IdTriple>| changed(set, rs) == (#[trigger] changed(
                    set,
                    before,
                )).insert(id) by {
                    lemma_new_term(set, before, keys, s);
                    lemma_new_term(set, b1, k1, p);
                    lemma_new_term(set, b2, k2, o);
                }
            }
        },
        _ => {
            assert(keys =~= keys.take(keys.len() as int));
        },
    }
}

/// Recording a term changes no triple.
proof fn lemma_new_term(set: Set<IdTriple>, rs: Seq<RecordView>, keys: Seq<Seq<char>>, term: (Seq<char>, TermKind))
    ensures
        changed(set, rs + new_term(keys, term)) == changed(set, rs),
        insert_count(rs + new_term(keys, term)) == insert_count(rs),
{
    let more = rs + new_term(keys, term);
    if new_term(keys, term).len() == 0 {
        assert(more =~= rs);
    } else {
        assert(more.drop_last() =~= rs);
    }
}

/// What the collected records of an operation do: they insert, or delete, the triples
/// that it names.
proof fn lemma_collected(
    before: Seq<RecordView>,
    keys: Seq<Seq<char>>,
    insert: bool,
    ts: Seq<TripleView>,
    n: int,
    set: Set<IdTriple>,
)
    requires
        keys.no_duplicates(),
        0 <= n <= ts.len(),
    ensures
        ({
            let (r, more) = collect_triples(before, keys, insert, ts, n);
            &&& keys.is_prefix_of(more)
            &&& more.no_duplicates()
            &&& !insert ==> more == keys
            &&& r is Ok && insert ==> forall|i: int|
                0 <= i < n ==> triple_id(more, #[trigger] ts[i]) is Some
            &&& r is Ok ==> forall|x: IdTriple| #[trigger]
                changed(set, r->Ok_0).contains(x) <==> {
                    let named = exists|i: int| 0 <= i < n && triple_id(more, #[trigger] ts[i]) == Some(x);
                    if insert {
                        changed(set, before).contains(x) || named
                    } else {
                        changed(set, before).contains(x) && !named
                    }
                }
        }),
    decreases n,
{
    assert(keys =~= keys.take(keys.len() as int));
    if n > 0 {
        lemma_collected(before, keys, insert, ts, n - 1, set);
        let (r0, k) = collect_triples(before, keys, insert, ts, n - 1);
        let (r, more) = collect_triples(before, keys, insert, ts, n);
        if r0 is Ok {
            let t = ts[n - 1];
            if insert {
                lemma_interned_triple(k, r0->Ok_0, t);
                lemma_prefix_twice(keys, k, more);
            }
            if r is Ok {
                assert forall|i: int| 0 <= i < n - 1 implies triple_id(more, #[trigger] ts[i]) == triple_id(
                    k,
                    ts[i],
                ) by {
                    if insert {
                        lemma_triple_stays(k, more, ts[i]);
                    }
                }
                let s0 = changed(set, r0->Ok_0);
                let s1 = changed(set, r->Ok_0);
                assert(s1 == match triple_id(more, t) {
                    Some(x) => if insert {
                        s0.insert(x)
                    } else {
                        s0.remove(x)
                    },
                    None => s0,
                }) by {
                    if !insert && triple_id(more, t) is Some {
                        assert((r->Ok_0).drop_last() =~= r0->Ok_0);
                    }
                }
                assert forall|x: IdTriple| #[trigger] s1.contains(x) <==> {
                    let named = exists|i: int| 0 <= i < n && triple_id(more, #[trigger] ts[i]) == Some(x);
                    if insert {
                        changed(set, before).contains(x) || named
                    } else {
                        changed(set, before).contains(x) && !named
                    }
                } by {
                    lemma_named_step(k, more, ts, n, x);
                    assert(s0.contains(x) == s0.contains(x));
                }
            }
        }
    }
}

/// A triple is named by the first `n` triples if it is the last of them or named by
/// the others.
proof fn lemma_named_step(k: Seq<Seq<char>>, more: Seq<Seq<char>>, ts: Seq<TripleView>, n: int, x: IdTriple)
    requires
        0 < n <= ts.len(),
        forall|i: int| 0 <= i < n - 1 ==> triple_id(more, #[trigger] ts[i]) == triple_id(k, ts[i]),
    ensures
        (exists|i: int| 0 <= i < n && triple_id(more, #[trigger] ts[i]) == Some(x)) <==> (exists|i: int|
            0 <= i < n - 1 && triple_id(k, #[trigger] ts[i]) == Some(x)) || triple_id(more, ts[n - 1])
            == Some(x),
{
    if exists|i: int| 0 <= i < n && triple_id(more, #[trigger] ts[i]) == Some(x) {
        let i = choose|i: int| 0 <= i < n && triple_id(more, #[trigger] ts[i]) == Some(x);
        if i < n - 1 {
            assert(triple_id(k, ts[i]) == Some(x));
        }
    }
    if exists|i: int| 0 <= i < n - 1 && triple_id(k, #[trigger] ts[i]) == Some(x) {
        let i = choose|i: int| 0 <= i < n - 1 && triple_id(k, #[trigger] ts[i]) == Some(x);
        assert(triple_id(more, ts[i]) == Some(x));
    }
}

/// The operations of an update take effect in their order: what is recorded of them
/// makes of a store what they make of it one after the other.
pub proof fn law_update_in_order(keys: Seq<Seq<char>>, set: Set<IdTriple>, ops: Seq<UpdateOpView>, n: int)
    requires
        keys.no_duplicates(),
        0 <= n <= ops.len(),
        collect_ops(keys, ops, n).0 is Ok,
    ensures
        changed(set, collect_ops(keys, ops, n).0->Ok_0) == triples_after(keys, set, ops, n),
        collect_ops(keys, ops, n).1.no_duplicates(),
    decreases n,
{
    if n > 0 {
        law_update_in_order(keys, set, ops, n - 1);
        let (r, k) = collect_ops(keys, ops, n - 1);
        let rs = collect_ops(keys, ops, n).0->Ok_0;
        match ops[n - 1] {
            UpdateOpView::Insert(ts) => {
                lemma_collected(r->Ok_0, k, true, ts, ts.len() as int, set);
                assert(changed(set, rs) =~= triples_after(keys, set, ops, n));
            },
            UpdateOpView::Delete(ts) => {
                lemma_collected(r->Ok_0, k, false, ts, ts.len() as int, set);
                assert(changed(set, rs) =~= triples_after(keys, set, ops, n));
            },
            UpdateOpView::Other => {},
        }
    }
}

/// Operation `j` names the triple.
pub open spec fn names_triple(keys: Seq<Seq<char>>, ops: Seq<UpdateOpView>, j: int, t: IdTriple) -> bool {
    let known = collect_ops(keys, ops, j + 1).1;
    match ops[j] {
        UpdateOpView::Insert(ts) => op_triples(known, ts).contains(t),
        UpdateOpView::Delete(ts) => op_triples(known, ts).contains(t),
        UpdateOpView::Other => false,
    }
}

/// The last operation that names a triple decides: the triple is there if that was
/// an insertion, and not if it was a deletion.
pub proof fn law_last_operation_decides(
    keys: Seq<Seq<char>>,
    set: Set<IdTriple>,
    ops: Seq<UpdateOpView>,
    n: int,
    k: int,
    t: IdTriple,
)
    requires
        0 <= k < n <= ops.len(),
        names_triple(keys, ops, k, t),
        forall|j: int| k < j < n ==> !#[trigger] names_triple(keys, ops, j, t),
    ensures
        triples_after(keys, set, ops, n).contains(t) == ops[k] is Insert,
    decreases n,
{
    if k < n - 1 {
        assert(!names_triple(keys, ops, n - 1, t));
        law_last_operation_decides(keys, set, ops, n - 1, k, t);
    }
}

/// A triple that no operation names is there exactly if it was there before.
pub proof fn law_others_untouched(
    keys: Seq<Seq<char>>,
    set: Set<IdTriple>,
    ops: Seq<UpdateOpView>,
    n: int,
    t: IdTriple,
)
    requires
        0 <= n <= ops.len(),
        forall|j: int| 0 <= j < n ==> !#[trigger] names_triple(keys, ops, j, t),
    ensures
        triples_after(keys, set, ops, n).contains(t) == set.contains(t),
    decreases n,
{
    if n > 0 {
        assert(!names_triple(keys, ops, n - 1, t));
        law_others_untouched(keys, set, ops, n - 1, t);
    }
}

// --- Applying --------------------------------------------------------------------------

proof fn lemma_log_more(rs: Seq<RecordView>, r: RecordView)
    ensures
        log_bytes(rs.push(r)) == log_bytes(rs) + crate::wal::record_bytes(r),
{
    assert(rs.push(r).drop_last() =~= rs);
}

/// Logs the first `n` terms of the dictionary, as far as the log does not have them
/// yet.
fn log_terms(wal: &mut Wal, dict: &Dictionary, n: usize)
    requires
        dict.wf(),
        old(wal).logged <= n <= dict.keys().len(),
    ensures
        final(wal).logged == old(wal).logged,
        final(wal).pending@ == old(wal).pending@ + log_bytes(
            term_records(dict.keys().take(n as int).skip(old(wal).logged as int)),
        ),
{
    let ghost start = wal.pending@;
    let ghost known_keys = dict.keys().take(n as int);
    let ghost all = term_records(known_keys.skip(wal.logged as int));
    let first: usize = wal.logged;
    let mut id: usize = first;
    proof {
        dict.lemma_wf();
        assert(start + log_bytes(all.take(0)) =~= start);
    }
    while id < n
        invariant
            dict.wf(),
            n <= dict.keys().len() <= u32::MAX,
            first <= id <= n,
            wal.logged == first,
            first == old(wal).logged,
            known_keys == dict.keys().take(n as int),
            all == term_records(known_keys.skip(first as int)),
            wal.pending@ == start + log_bytes(all.take(id - first)),
        decreases n - id,
    {
        if let (Some(v), Some(t)) = (dict.resolve(id as u32), dict.resolve_type(id as u32)) {
            wal.log_term(v.as_str(), &t);
            proof {
                let k = id - first;
                assert(all[k] == term_record(dict.keys()[id as int]));
                assert(all.take(k + 1) =~= all.take(k).push(all[k]));
                lemma_log_more(all.take(k), all[k]);
                assert(wal.pending@ =~= start + log_bytes(all.take(k + 1)));
            }
        }
        id += 1;
    }
    assert(all.take(id - first) =~= all);
}

proof fn lemma_log_join(a: Seq<RecordView>, b: Seq<RecordView>)
    ensures
        log_bytes(a + b) == log_bytes(a) + log_bytes(b),
    decreases b.len(),
{
    if b.len() > 0 {
        lemma_log_join(a, b.drop_last());
        assert((a + b).drop_last() =~= a + b.drop_last());
        assert(log_bytes(a + b) =~= log_bytes(a) + log_bytes(b));
    } else {
        assert(a + b =~= a);
        assert(log_bytes(a) + log_bytes(b) =~= log_bytes(a));
    }
}

proof fn lemma_count_grows(rs: Seq<RecordView>, i: int)
    requires
        0 <= i <= rs.len(),
    ensures
        insert_count(rs.take(i)) <= insert_count(rs),
        insert_count(rs.take(i)) <= i,
    decreases rs.len() - i,
{
    if i < rs.len() {
        lemma_count_grows(rs, i + 1);
        assert(rs.take(i + 1).drop_last() =~= rs.take(i));
    } else {
        assert(rs.take(i) =~= rs);
    }
    lemma_count_len(rs.take(i));
}

proof fn lemma_count_len(rs: Seq<RecordView>)
    ensures
        insert_count(rs) <= rs.len(),
    decreases rs.len(),
{
    if rs.len() > 0 {
        lemma_count_len(rs.drop_last());
    }
}

/// Whether there is room for what is inserted.
fn has_room(stored: usize, cs: &Vec<Change>) -> (r: bool)
    ensures
        r == (stored + insert_count(changes_view(cs@)) <= u32::MAX),
{
    let ghost rs = changes_view(cs@);
    let mut n: usize = 0;
    let mut i: usize = 0;
    assert(rs.take(0) =~= Seq::<RecordView>::empty());
    while i < cs.len()
        invariant
            rs == changes_view(cs@),
            i <= cs@.len(),
            n <= i,
            n == insert_count(rs.take(i as int)),
        decreases cs@.len() - i,
    {
        proof {
            assert(rs.take(i + 1).drop_last() =~= rs.take(i as int));
            assert(rs.take(i + 1).last() == cs@[i as int]@);
        }
        match &cs[i] {
            Change::Insert(_, _, _) => {
                n += 1;
            },
            _ => {},
        }
        i += 1;
    }
    assert(rs.take(i as int) =~= rs);
    stored <= 0xFFFF_FFFF && n <= 0xFFFF_FFFF - stored
}

/// The triples after the records are at most those before and the inserted ones.
proof fn lemma_changed_len(set: Set<IdTriple>, rs: Seq<RecordView>)
    requires
        set.finite(),
    ensures
        changed(set, rs).finite(),
        changed(set, rs).len() <= set.len() + insert_count(rs),
    decreases rs.len(),
{
    if rs.len() > 0 {
        lemma_changed_len(set, rs.drop_last());
    }
}

/// Logs the records and makes the changes, one after the other.
fn apply_changes(store: &mut TripleStore, wal: &mut Wal, cs: &Vec<Change>)
    requires
        old(store).wf(),
        old(store).triples().len() + insert_count(changes_view(cs@)) <= u32::MAX,
    ensures
        final(store).wf(),
        final(store).dict == old(store).dict,
        final(store).triples() == changed(old(store).triples(), changes_view(cs@)),
        final(wal).logged == old(wal).logged,
        final(wal).pending@ == old(wal).pending@ + log_bytes(changes_view(cs@)),
{
    let ghost rs = changes_view(cs@);
    let ghost set = store.triples();
    let ghost start = wal.pending@;
    let mut i: usize = 0;
    proof {
        store.index.lemma_wf();
        assert(rs.take(0) =~= Seq::<RecordView>::empty());
        assert(start + log_bytes(rs.take(0)) =~= start);
    }
    while i < cs.len()
        invariant
            i <= cs@.len(),
            rs == changes_view(cs@),
            set == old(store).triples(),
            set.finite(),
            set.len() + insert_count(rs) <= u32::MAX,
            store.wf(),
            store.dict == old(store).dict,
            store.triples() == changed(set, rs.take(i as int)),
            wal.logged == old(wal).logged,
            wal.pending@ == start + log_bytes(rs.take(i as int)),
        decreases cs@.len() - i,
    {
        let ghost r = cs@[i as int]@;
        proof {
            assert(rs.take(i + 1) =~= rs.take(i as int).push(r));
            assert(rs.take(i + 1).drop_last() =~= rs.take(i as int));
            lemma_changed_len(set, rs.take(i as int));
            lemma_count_grows(rs, i + 1);
            lemma_log_more(rs.take(i as int), r);
        }
        match &cs[i] {
            Change::Term(v, t) => {
                wal.log_term(v.as_str(), t);
            },
            Change::Insert(s, p, o) => {
                wal.log_op(true, *s, *p, *o);
                store.insert_triple(*s, *p, *o);
            },
            Change::Delete(s, p, o) => {
                wal.log_op(false, *s, *p, *o);
                store.delete_triple(*s, *p, *o);
            },
        }
        assert(wal.pending@ =~= start + log_bytes(rs.take(i + 1)));
        i += 1;
    }
    assert(rs.take(i as int) =~= rs);
}

/// Applies an update to the store and logs it: the operations take effect in their
/// order. A refused update changes no triple and logs nothing; terms that it named
/// before it was refused may stay in the dictionary.
pub fn apply_update(store: &mut TripleStore, ops: &Vec<UpdateOp>, wal: &mut Wal) -> (res: Result<
    (),
    String,
>)
    requires
        old(store).wf(),
        old(wal).logged <= old(store).dict.keys().len(),
    ensures
        final(store).wf(),
        ({
            let before = old(store).dict.keys();
            let (want, keys) = update_changes(before, old(store).triples().len(), ops_view(ops@));
            &&& final(store).dict.keys() == keys
            &&& match res {
                Ok(_) => want is Ok && final(store).triples() == triples_after(
                    before,
                    old(store).triples(),
                    ops_view(ops@),
                    ops@.len() as int,
                ) && final(wal).logged == keys.len() && final(wal).pending@ == old(wal).pending@
                    + log_bytes(update_records(old(wal).logged as nat, before, want->Ok_0)),
                Err(e) => want == Err::<Seq<RecordView>, Seq<char>>(e@) && final(store).triples() == old(
                    store,
                ).triples() && final(wal).logged == old(wal).logged && final(wal).pending@
                    == old(wal).pending@,
            }
        }),
        final(wal).logged <= final(store).dict.keys().len(),
{
    let ghost keys0 = store.dict.keys();
    let ghost set = store.triples();
    let ghost ov = ops_view(ops@);
    let ghost first = wal.logged;
    let ghost start = wal.pending@;
    proof {
        lemma_ops_grow(keys0, ov, ops@.len() as int);
        store.dict.lemma_wf();
    }
    let stored: usize = store.triple_count();
    let known_terms: usize = store.dict.len();
    match take_ops(&mut store.dict, ops) {
        Ok(cs) => {
            if !has_room(stored, &cs) {
                return Err(owned("the store is full"));
            }
            let ghost rs = changes_view(cs@);
            let ghost keys = store.dict.keys();
            log_terms(wal, &store.dict, known_terms);
            apply_changes(store, wal, &cs);
            wal.logged = store.dict.len();
            proof {
                assert(keys.take(known_terms as int) =~= keys0);
                let a = term_records(keys0.skip(first as int));
                lemma_log_join(a, rs);
                assert(wal.pending@ =~= start + log_bytes(update_records(first as nat, keys0, rs)));
                law_update_in_order(keys0, set, ov, ov.len() as int);
            }
            Ok(())
        },
        Err(e) => Err(e),
    }
}

proof fn lemma_triples_grow(
    before: Seq<RecordView>,
    keys: Seq<Seq<char>>,
    insert: bool,
    ts: Seq<TripleView>,
    n: int,
)
    ensures
        keys.is_prefix_of(collect_triples(before, keys, insert, ts, n).1),
    decreases n,
{
    if n > 0 {
        lemma_triples_grow(before, keys, insert, ts, n - 1);
        let k = collect_triples(before, keys, insert, ts, n - 1).1;
        let after = collect_triples(before, keys, insert, ts, n).1;
        assert(k.is_prefix_of(after));
        assert(keys =~= after.take(keys.len() as int));
    }
}

proof fn lemma_ops_grow(keys: Seq<Seq<char>>, ops: Seq<UpdateOpView>, n: int)
    ensures
        keys.is_prefix_of(collect_ops(keys, ops, n).1),
    decreases n,
{
    if n > 0 {
        lemma_ops_grow(keys, ops, n - 1);
        let (r, k) = collect_ops(keys, ops, n - 1);
        if r is Ok {
            match ops[n - 1] {
                UpdateOpView::Insert(ts) => {
                    lemma_triples_grow(r->Ok_0, k, true, ts, ts.len() as int);
                },
                UpdateOpView::Delete(ts) => {
                    lemma_triples_grow(r->Ok_0, k, false, ts, ts.len() as int);
                },
                UpdateOpView::Other => {},
            }
        }
        let after = collect_ops(keys, ops, n).1;
        assert(k.is_prefix_of(after));
        assert(keys =~= after.take(keys.len() as int));
    }
}

// --- Updates survive a restart ---------------------------------------------------------

proof fn lemma_records_join(s: LogState, a: Seq<RecordView>, b: Seq<RecordView>)
    ensures
        after_records(s, a + b) == (match after_records(s, a) {
            Ok(t) => after_records(t, b),
            Err(e) => Err(e),
        }),
    decreases b.len(),
{
    if b.len() > 0 {
        lemma_records_join(s, a, b.drop_last());
        assert((a + b).drop_last() =~= a + b.drop_last());
    } else {
        assert(a + b =~= a);
    }
}

proof fn lemma_terms_replay(keys: Seq<Seq<char>>, first: int, n: int, set: Set<IdTriple>, applied: nat)
    requires
        0 <= first <= n <= keys.len(),
        keys.no_duplicates(),
        keys.len() <= u32::MAX,
        forall|i: int| first <= i < n ==> readable(#[trigger] keys[i]),
    ensures
        after_records(
            LogState { keys: keys.take(first), triples: set, applied },
            term_records(keys.subrange(first, n)),
        ) == Ok::<LogState, Seq<char>>(LogState { keys: keys.take(n), triples: set, applied }),
    decreases n - first,
{
    let s = LogState { keys: keys.take(first), triples: set, applied };
    let rs = term_records(keys.subrange(first, n));
    if n > first {
        lemma_terms_replay(keys, first, n - 1, set, applied);
        assert(rs.drop_last() =~= term_records(keys.subrange(first, n - 1)));
        assert(rs.last() == term_record(keys[n - 1]));
        let known = keys.take(n - 1);
        assert(!known.contains(keys[n - 1])) by {
            if known.contains(keys[n - 1]) {
                let i = choose|i: int| 0 <= i < known.len() && known[i] == keys[n - 1];
                assert(keys[i] == keys[n - 1]);
            }
        }
        assert(known.push(keys[n - 1]) =~= keys.take(n));
    } else {
        assert(rs =~= Seq::<RecordView>::empty());
    }
}

/// A state that the records lead to.
spec fn leads_to(s: LogState, rs: Seq<RecordView>, keys: Seq<Seq<char>>) -> bool {
    after_records(s, rs) == Ok::<LogState, Seq<char>>(
        LogState { keys, triples: changed(s.triples, rs), applied: s.applied + change_count(rs) },
    )
}

/// Replaying the record of a term gives it the identifier that it has.
proof fn lemma_term_replays(s: LogState, rs: Seq<RecordView>, keys: Seq<Seq<char>>, term: (Seq<char>, TermKind))
    requires
        leads_to(s, rs, keys),
        interned(keys, term).0 is Some,
    ensures
        leads_to(s, rs + new_term(keys, term), interned(keys, term).1),
{
    let more = rs + new_term(keys, term);
    law_plain_is_xsd_string(term.0);
    lemma_new_term(s.triples, rs, keys, term);
    if new_term(keys, term).len() == 0 {
        assert(more =~= rs);
    } else {
        assert(more.drop_last() =~= rs);
        assert(more.last() == RecordView::Term(term.0, logged_kind(term.1)));
    }
}

/// Replaying what is recorded of one more triple does what the triple asks for.
proof fn lemma_triple_replays(s: LogState, rs: Seq<RecordView>, keys: Seq<Seq<char>>, insert: bool, t: TripleView)
    requires
        leads_to(s, rs, keys),
        s.triples.finite(),
        ({
            let (r, more) = if insert {
                insert_one(rs, keys, t)
            } else {
                delete_one(rs, keys, t)
            };
            r is Ok && s.triples.len() + insert_count(r->Ok_0) <= u32::MAX
        }),
    ensures
        ({
            let (r, more) = if insert {
                insert_one(rs, keys, t)
            } else {
                delete_one(rs, keys, t)
            };
            leads_to(s, r->Ok_0, more) && insert_count(rs) <= insert_count(r->Ok_0)
        }),
{
    if insert {
        let (p, q, o) = (data_term(t.subject)->0, data_term(t.predicate)->0, data_term(t.object)->0);
        let k1 = interned(keys, p).1;
        let k2 = interned(k1, q).1;
        let r1 = rs + new_term(keys, p);
        let r2 = r1 + new_term(k1, q);
        let r3 = r2 + new_term(k2, o);
        lemma_term_replays(s, rs, keys, p);
        lemma_term_replays(s, r1, k1, q);
        lemma_term_replays(s, r2, k2, o);
        lemma_new_term(s.triples, rs, keys, p);
        lemma_new_term(s.triples, r1, k1, q);
        lemma_new_term(s.triples, r2, k2, o);
        let all = insert_one(rs, keys, t).0->Ok_0;
        assert(all.drop_last() =~= r3);
        lemma_changed_len(s.triples, r3);
    } else {
        let all = delete_one(rs, keys, t).0->Ok_0;
        if triple_id(keys, t) is Some {
            assert(all.drop_last() =~= rs);
        }
    }
}

proof fn lemma_triples_count(
    before: Seq<RecordView>,
    keys: Seq<Seq<char>>,
    insert: bool,
    ts: Seq<TripleView>,
    n: int,
)
    requires
        collect_triples(before, keys, insert, ts, n).0 is Ok,
    ensures
        insert_count(before) <= insert_count(collect_triples(before, keys, insert, ts, n).0->Ok_0),
    decreases n,
{
    if n > 0 {
        lemma_triples_count(before, keys, insert, ts, n - 1);
        let (r, k) = collect_triples(before, keys, insert, ts, n - 1);
        let rs = r->Ok_0;
        let all = collect_triples(before, keys, insert, ts, n).0->Ok_0;
        let t = ts[n - 1];
        if insert {
            let (p, q, o) = (data_term(t.subject)->0, data_term(t.predicate)->0, data_term(t.object)->0);
            let k1 = interned(k, p).1;
            let k2 = interned(k1, q).1;
            let r1 = rs + new_term(k, p);
            let r2 = r1 + new_term(k1, q);
            lemma_new_term(Set::empty(), rs, k, p);
            lemma_new_term(Set::empty(), r1, k1, q);
            lemma_new_term(Set::empty(), r2, k2, o);
            assert(all.drop_last() =~= r2 + new_term(k2, o));
        } else if triple_id(k, t) is Some {
            assert(all.drop_last() =~= rs);
        }
    }
}

proof fn lemma_triples_replay(
    s: LogState,
    before: Seq<RecordView>,
    keys: Seq<Seq<char>>,
    insert: bool,
    ts: Seq<TripleView>,
    n: int,
)
    requires
        leads_to(s, before, keys),
        s.triples.finite(),
        collect_triples(before, keys, insert, ts, n).0 is Ok,
        s.triples.len() + insert_count(collect_triples(before, keys, insert, ts, n).0->Ok_0) <= u32::MAX,
    ensures
        leads_to(
            s,
            collect_triples(before, keys, insert, ts, n).0->Ok_0,
            collect_triples(before, keys, insert, ts, n).1,
        ),
    decreases n,
{
    if n > 0 {
        let (r, k) = collect_triples(before, keys, insert, ts, n - 1);
        let one = collect_triples(r->Ok_0, k, insert, seq![ts[n - 1]], 1);
        assert(collect_triples(r->Ok_0, k, insert, seq![ts[n - 1]], 0) == (r, k));
        assert(one == collect_triples(before, keys, insert, ts, n));
        lemma_triples_count(r->Ok_0, k, insert, seq![ts[n - 1]], 1);
        lemma_triples_replay(s, before, keys, insert, ts, n - 1);
        lemma_triple_replays(s, r->Ok_0, k, insert, ts[n - 1]);
    }
}

proof fn lemma_ops_replay(s: LogState, ops: Seq<UpdateOpView>, n: int)
    requires
        s.triples.finite(),
        collect_ops(s.keys, ops, n).0 is Ok,
        s.triples.len() + insert_count(collect_ops(s.keys, ops, n).0->Ok_0) <= u32::MAX,
    ensures
        leads_to(s, collect_ops(s.keys, ops, n).0->Ok_0, collect_ops(s.keys, ops, n).1),
    decreases n,
{
    if n > 0 {
        let (r, k) = collect_ops(s.keys, ops, n - 1);
        match ops[n - 1] {
            UpdateOpView::Insert(ts) => {
                lemma_triples_count(r->Ok_0, k, true, ts, ts.len() as int);
                lemma_ops_replay(s, ops, n - 1);
                lemma_triples_replay(s, r->Ok_0, k, true, ts, ts.len() as int);
            },
            UpdateOpView::Delete(ts) => {
                lemma_triples_count(r->Ok_0, k, false, ts, ts.len() as int);
                lemma_ops_replay(s, ops, n - 1);
                lemma_triples_replay(s, r->Ok_0, k, false, ts, ts.len() as int);
            },
            UpdateOpView::Other => {},
        }
    } else {
        assert(s.applied + change_count(Seq::<RecordView>::empty()) == s.applied);
    }
}

/// An update survives a restart: where the log so far leads to the triples `set`
/// and the first `logged` terms, replaying what the update logged as well leads
/// to the dictionary and the triples that its operations made, in their order.
pub proof fn law_update_survives_restart(
    keys: Seq<Seq<char>>,
    logged: int,
    set: Set<IdTriple>,
    applied: nat,
    ops: Seq<UpdateOpView>,
)
    requires
        keys.no_duplicates(),
        keys.len() <= u32::MAX,
        0 <= logged <= keys.len(),
        forall|i: int| logged <= i < keys.len() ==> readable(#[trigger] keys[i]),
        set.finite(),
        update_changes(keys, set.len(), ops).0 is Ok,
        ({
            let rs = update_records(logged as nat, keys, update_changes(keys, set.len(), ops).0->Ok_0);
            forall|i: int| 0 <= i < rs.len() ==> fits_log(#[trigger] rs[i])
        }),
    ensures
        ({
            let (rs, more) = update_changes(keys, set.len(), ops);
            let log = log_bytes(update_records(logged as nat, keys, rs->Ok_0));
            replayed(log, 0, LogState { keys: keys.take(logged), triples: set, applied }) == Ok::<
                (LogState, int),
                Seq<char>,
            >(
                (
                    LogState {
                        keys: more,
                        triples: triples_after(keys, set, ops, ops.len() as int),
                        applied: applied + change_count(rs->Ok_0),
                    },
                    log.len() as int,
                ),
            )
        }),
{
    let (r, more) = update_changes(keys, set.len(), ops);
    let rs = r->Ok_0;
    let s = LogState { keys: keys.take(logged), triples: set, applied };
    let a = term_records(keys.skip(logged));
    let n = keys.len() as int;
    law_update_in_order(keys, set, ops, ops.len() as int);
    assert(keys.subrange(logged, n) =~= keys.skip(logged));
    assert(keys.take(n) =~= keys);
    lemma_terms_replay(keys, logged, n, set, applied);
    lemma_ops_replay(LogState { keys, triples: set, applied }, ops, ops.len() as int);
    lemma_records_join(s, a, rs);
    law_replay_repeats_log(update_records(logged as nat, keys, rs), s);
}

} // verus!
