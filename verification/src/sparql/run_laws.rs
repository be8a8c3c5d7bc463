//! What requests are answered, from their text to the reply.

use crate::hypertrie::csr::IdTriple;
use crate::hypertrie::dictionary::term_key;
use crate::hypertrie::query::TripleStore;
use crate::sparql::algebra::{NodeView, PatternView, QueryView, TripleView, UpdateOpView};
use crate::sparql::json_laws::{json_of, law_boolean_json, law_table_json, table_object, Json};
use crate::sparql::paths::node_id;
use crate::sparql::pattern_laws::{holds_under, node_value, Assignment};
use crate::sparql::reader_laws::{op_ok, query_ok, query_tree};
use crate::sparql::run::{
    answer, document_of, request_text, selection, tally_reading, updated, with_inference, AnswerView,
    Reading, Tally,
};
use crate::sparql::solve::{answered, Setting};
use crate::sparql::sse::Tree;
use crate::sparql::sse_laws::{law_query_text, law_update_text, tree_ok, tree_text, update_tree};
use crate::sparql::update::{collect_ops, collect_triples, op_triples, triple_id, triples_after};
use crate::text::{drop_white_end, skip_white, trimmed, white};
use crate::wal::Wal;
use vstd::prelude::*;

verus! {

// --- Triples ---------------------------------------------------------------------------

/// The identifier is that of the term, or what is assigned to the name.
pub open spec fn stands_for(keys: Seq<Seq<char>>, n: NodeView, env: Assignment, id: u32) -> bool {
    match n {
        NodeView::Known(v, k) => id < keys.len() && keys[id as int] == term_key(v, k),
        NodeView::Variable(v) => id == env(v),
        NodeView::Blank(l) => id == env("__bn_"@ + l),
    }
}

/// The identifiers are, in their order, those of the subject, predicate and object.
pub open spec fn is_instance(keys: Seq<Seq<char>>, t: TripleView, env: Assignment, x: IdTriple) -> bool {
    &&& stands_for(keys, t.subject, env, x.0)
    &&& stands_for(keys, t.predicate, env, x.1)
    &&& stands_for(keys, t.object, env, x.2)
}

proof fn lemma_node(keys: Seq<Seq<char>>, n: NodeView, env: Assignment, id: u32)
    requires
        keys.no_duplicates(),
        keys.len() <= u32::MAX,
    ensures
        node_value(keys, n, env) == Some(id) <==> stands_for(keys, n, env, id),
        n is Known ==> node_value(keys, n, env) == node_id(keys, n),
{
    if let NodeView::Known(v, k) = n {
        let key = term_key(v, k);
        if keys.contains(key) {
            let i = keys.index_of(key);
            assert(keys[i] == key);
        }
        if id < keys.len() && keys[id as int] == key {
            assert(keys.contains(key));
        }
    }
}

/// A triple pattern holds under an assignment exactly if a stored triple is an instance of
/// it: known terms stand for themselves, names for what is assigned to them.
pub proof fn law_pattern_holds(set: Set<IdTriple>, keys: Seq<Seq<char>>, t: TripleView, env: Assignment)
    requires
        keys.no_duplicates(),
        keys.len() <= u32::MAX,
    ensures
        holds_under(set, keys, t, env) <==> exists|x: IdTriple| set.contains(x) && #[trigger]
            is_instance(keys, t, env, x),
{
    if holds_under(set, keys, t, env) {
        let x = (
            node_value(keys, t.subject, env)->0,
            node_value(keys, t.predicate, env)->0,
            node_value(keys, t.object, env)->0,
        );
        lemma_node(keys, t.subject, env, x.0);
        lemma_node(keys, t.predicate, env, x.1);
        lemma_node(keys, t.object, env, x.2);
        assert(set.contains(x) && is_instance(keys, t, env, x));
    }
    if exists|x: IdTriple| set.contains(x) && #[trigger] is_instance(keys, t, env, x) {
        let x = choose|x: IdTriple| set.contains(x) && #[trigger] is_instance(keys, t, env, x);
        lemma_node(keys, t.subject, env, x.0);
        lemma_node(keys, t.predicate, env, x.1);
        lemma_node(keys, t.object, env, x.2);
    }
}

// --- Updates ---------------------------------------------------------------------------

/// Nothing is assigned.
pub open spec fn no_names() -> Assignment {
    |n: Seq<char>| 0u32
}

/// All terms of the triple are known.
pub open spec fn is_data(t: TripleView) -> bool {
    t.subject is Known && t.predicate is Known && t.object is Known
}

/// One of the triples stands for the stored one.
pub open spec fn lists(keys: Seq<Seq<char>>, ts: Seq<TripleView>, x: IdTriple) -> bool {
    exists|i: int| 0 <= i < ts.len() && is_data(ts[i]) && is_instance(keys, #[trigger] ts[i], no_names(), x)
}

proof fn lemma_triple_id(keys: Seq<Seq<char>>, t: TripleView, x: IdTriple)
    requires
        keys.no_duplicates(),
        keys.len() <= u32::MAX,
    ensures
        triple_id(keys, t) == Some(x) <==> is_data(t) && is_instance(keys, t, no_names(), x),
{
    lemma_node(keys, t.subject, no_names(), x.0);
    lemma_node(keys, t.predicate, no_names(), x.1);
    lemma_node(keys, t.object, no_names(), x.2);
    if triple_id(keys, t) == Some(x) {
        assert(is_data(t));
    }
}

proof fn lemma_op_triples(keys: Seq<Seq<char>>, ts: Seq<TripleView>, x: IdTriple)
    requires
        keys.no_duplicates(),
        keys.len() <= u32::MAX,
    ensures
        op_triples(keys, ts).contains(x) <==> lists(keys, ts, x),
{
    if op_triples(keys, ts).contains(x) {
        let i = choose|i: int| 0 <= i < ts.len() && triple_id(keys, #[trigger] ts[i]) == Some(x);
        lemma_triple_id(keys, ts[i], x);
        assert(is_instance(keys, ts[i], no_names(), x));
    }
    if lists(keys, ts, x) {
        let i = choose|i: int| 0 <= i < ts.len() && is_data(ts[i]) && is_instance(keys, #[trigger] ts[i], no_names(), x);
        lemma_triple_id(keys, ts[i], x);
        assert(triple_id(keys, ts[i]) == Some(x));
    }
}

/// An insertion adds the triples that it lists, a deletion takes away those that it lists,
/// and nothing else changes. The terms are those of the dictionary that the operation leaves.
pub proof fn law_operation(
    keys: Seq<Seq<char>>,
    set: Set<IdTriple>,
    ops: Seq<UpdateOpView>,
    n: int,
    x: IdTriple,
)
    requires
        0 < n <= ops.len(),
        collect_ops(keys, ops, n).1.no_duplicates(),
        collect_ops(keys, ops, n).1.len() <= u32::MAX,
    ensures
        triples_after(keys, set, ops, 0) == set,
        ({
            let before = triples_after(keys, set, ops, n - 1).contains(x);
            let after = triples_after(keys, set, ops, n).contains(x);
            let k = collect_ops(keys, ops, n).1;
            match ops[n - 1] {
                UpdateOpView::Insert(ts) => after <==> before || lists(k, ts, x),
                UpdateOpView::Delete(ts) => after <==> before && !lists(k, ts, x),
                UpdateOpView::Other => after <==> before,
            }
        }),
{
    let k = collect_ops(keys, ops, n).1;
    match ops[n - 1] {
        UpdateOpView::Insert(ts) => {
            lemma_op_triples(k, ts, x);
        },
        UpdateOpView::Delete(ts) => {
            lemma_op_triples(k, ts, x);
        },
        UpdateOpView::Other => {},
    }
}

/// An update is accepted exactly if all its operations list data; the dictionary must have
/// room for the terms.
pub proof fn law_accepted_operations(keys: Seq<Seq<char>>, ops: Seq<UpdateOpView>, n: int)
    requires
        0 <= n <= ops.len(),
        keys.len() + 3 * listed(ops, n) <= u32::MAX,
    ensures
        collect_ops(keys, ops, n).0 is Ok <==> forall|j: int| 0 <= j < n ==> #[trigger] is_plain(ops[j]),
        collect_ops(keys, ops, n).1.len() <= keys.len() + 3 * listed(ops, n),
    decreases n,
{
    if n > 0 {
        law_accepted_operations(keys, ops, n - 1);
        let (r, k) = collect_ops(keys, ops, n - 1);
        if r is Ok {
            match ops[n - 1] {
                UpdateOpView::Insert(ts) => {
                    lemma_accepted(r->Ok_0, k, true, ts, ts.len() as int);
                },
                UpdateOpView::Delete(ts) => {
                    lemma_accepted(r->Ok_0, k, false, ts, ts.len() as int);
                },
                UpdateOpView::Other => {},
            }
            assert(is_plain(ops[n - 1]) <==> collect_ops(keys, ops, n).0 is Ok);
        }
    }
}

/// The operation lists data.
pub open spec fn is_plain(op: UpdateOpView) -> bool {
    match op {
        UpdateOpView::Insert(ts) => forall|i: int| 0 <= i < ts.len() ==> is_data(#[trigger] ts[i]),
        UpdateOpView::Delete(ts) => forall|i: int| 0 <= i < ts.len() ==> is_data(#[trigger] ts[i]),
        UpdateOpView::Other => false,
    }
}

/// How many triples the first `n` operations list.
pub open spec fn listed(ops: Seq<UpdateOpView>, n: int) -> nat
    decreases n,
{
    if n <= 0 {
        0
    } else {
        listed(ops, n - 1) + (match ops[n - 1] {
            UpdateOpView::Insert(ts) => ts.len(),
            UpdateOpView::Delete(ts) => ts.len(),
            UpdateOpView::Other => 0,
        })
    }
}

proof fn lemma_accepted(
    before: Seq<crate::wal::RecordView>,
    keys: Seq<Seq<char>>,
    insert: bool,
    ts: Seq<TripleView>,
    n: int,
)
    requires
        0 <= n <= ts.len(),
        keys.len() + 3 * n <= u32::MAX,
    ensures
        collect_triples(before, keys, insert, ts, n).0 is Ok <==> forall|i: int|
            0 <= i < n ==> is_data(#[trigger] ts[i]),
        collect_triples(before, keys, insert, ts, n).1.len() <= keys.len() + 3 * n,
    decreases n,
{
    if n > 0 {
        lemma_accepted(before, keys, insert, ts, n - 1);
        let (r, k) = collect_triples(before, keys, insert, ts, n - 1);
        if r is Ok {
            assert(collect_triples(before, keys, insert, ts, n).0 is Ok <==> is_data(ts[n - 1]));
        }
    }
}

/// An update that is refused changes neither the triples nor the log.
pub proof fn law_refused_update(
    before: TripleStore,
    after: TripleStore,
    wal0: Wal,
    wal1: Wal,
    x: Reading,
    e: String,
)
    requires
        updated(before, after, wal0, wal1, x, Err(e)),
    ensures
        after.triples() == before.triples(),
        wal1.pending@ == wal0.pending@,
        wal1.logged == wal0.logged,
{
}

/// An update that inserts data leaves the triples that were there and those that it lists;
/// one that deletes data leaves those that were there and are not listed.
pub proof fn law_data_updates(
    before: TripleStore,
    after: TripleStore,
    wal0: Wal,
    wal1: Wal,
    ts: Seq<TripleView>,
    insert: bool,
    x: IdTriple,
)
    requires
        op_ok(data_op(ts, insert)),
        tree_ok(update_tree(seq![data_op(ts, insert)])),
        after.dict.keys().no_duplicates(),
        after.dict.keys().len() <= u32::MAX,
        updated(before, after, wal0, wal1, Ok(tree_text(update_tree(seq![data_op(ts, insert)]))), Ok(())),
    ensures
        after.triples().contains(x) <==> if insert {
            before.triples().contains(x) || lists(after.dict.keys(), ts, x)
        } else {
            before.triples().contains(x) && !lists(after.dict.keys(), ts, x)
        },
{
    let ops = seq![data_op(ts, insert)];
    law_update_text(ops);
    law_operation(before.dict.keys(), before.triples(), ops, 1, x);
}

/// An insertion or a deletion of data.
pub open spec fn data_op(ts: Seq<TripleView>, insert: bool) -> UpdateOpView {
    if insert {
        UpdateOpView::Insert(ts)
    } else {
        UpdateOpView::Delete(ts)
    }
}

// --- Queries ---------------------------------------------------------------------------

/// A selection is answered by the solutions of its pattern; the document shows them and the
/// tally counts them.
pub proof fn law_select_text(s: Setting, keys: Seq<Seq<char>>, p: PatternView, name: Tree, infer: bool)
    requires
        query_ok(QueryView::Select(p)),
        tree_ok(query_tree(QueryView::Select(p), name)),
    ensures
        ({
            let text = tree_text(query_tree(QueryView::Select(p), name));
            let (r, k) = answered(s, keys, with_inference(p, infer));
            &&& selection(s, keys, Ok(text), infer) == (r, k)
            &&& document_of(s, keys, Ok(text), infer) == (
                match r {
                    Ok(t) => Ok::<Seq<char>, Seq<char>>(json_of(table_object(k, t))),
                    Err(e) => Err(e),
                },
                k,
            )
            &&& tally_reading(s, keys, Ok(text), infer).0 == match r {
                Ok(t) => Ok::<Tally, Seq<char>>(Tally::Count(t.rows.len() as usize)),
                Err(e) => Err(e),
            }
        }),
{
    law_query_text(QueryView::Select(p), name);
    let (r, k) = answered(s, keys, with_inference(p, infer));
    if let Ok(t) = r {
        law_table_json(k, t);
    }
}

/// A question is answered by whether its pattern has a solution.
pub proof fn law_ask_text(s: Setting, keys: Seq<Seq<char>>, p: PatternView, name: Tree, infer: bool)
    requires
        query_ok(QueryView::Ask(p)),
        tree_ok(query_tree(QueryView::Ask(p), name)),
    ensures
        ({
            let text = tree_text(query_tree(QueryView::Ask(p), name));
            let (r, k) = answered(s, keys, with_inference(p, infer));
            match r {
                Ok(t) => {
                    let yes = exists|row: Seq<u32>| t.rows.contains(row);
                    &&& answer(s, keys, text, infer).0 == Ok::<AnswerView, Seq<char>>(AnswerView::Truth(yes))
                    &&& document_of(s, keys, Ok(text), infer).0 == Ok::<Seq<char>, Seq<char>>(
                        json_of(
                            Json::Object(
                                seq![("head"@, Json::Object(Seq::empty())), ("boolean"@, Json::Truth(yes))],
                            ),
                        ),
                    )
                    &&& tally_reading(s, keys, Ok(text), infer).0 == Ok::<Tally, Seq<char>>(Tally::Boolean(yes))
                },
                Err(e) => {
                    &&& answer(s, keys, text, infer).0 == Err::<AnswerView, Seq<char>>(e)
                    &&& document_of(s, keys, Ok(text), infer).0 == Err::<Seq<char>, Seq<char>>(e)
                    &&& tally_reading(s, keys, Ok(text), infer).0 == Err::<Tally, Seq<char>>(e)
                },
            }
        }),
{
    law_query_text(QueryView::Ask(p), name);
    let (r, k) = answered(s, keys, with_inference(p, infer));
    if let Ok(t) = r {
        if t.rows.len() > 0 {
            assert(t.rows.contains(t.rows[0]));
        }
        law_boolean_json(t.rows.len() > 0);
        assert((exists|row: Seq<u32>| t.rows.contains(row)) == (t.rows.len() > 0));
    }
}

// --- Request texts ---------------------------------------------------------------------

/// White space only.
pub open spec fn blank(s: Seq<char>) -> bool {
    forall|i: int| 0 <= i < s.len() ==> white(#[trigger] s[i])
}

/// Nothing, or a text with no white space at its ends.
pub open spec fn tight(s: Seq<char>) -> bool {
    s.len() == 0 || (!white(s[0]) && !white(s.last()))
}

proof fn lemma_skip(a: Seq<char>, s: Seq<char>)
    requires
        blank(a),
        s.len() == 0 || !white(s[0]),
    ensures
        skip_white(a + s) == s,
    decreases a.len(),
{
    if a.len() == 0 {
        assert(a + s =~= s);
    } else {
        assert((a + s)[0] == a[0]);
        assert((a + s).drop_first() =~= a.drop_first() + s);
        lemma_skip(a.drop_first(), s);
    }
}

proof fn lemma_drop_end(s: Seq<char>, b: Seq<char>)
    requires
        blank(b),
        s.len() == 0 || !white(s.last()),
    ensures
        drop_white_end(s + b) == s,
    decreases b.len(),
{
    if b.len() == 0 {
        assert(s + b =~= s);
    } else {
        assert((s + b).last() == b.last());
        assert(b[b.len() - 1] == b.last());
        assert((s + b).drop_last() =~= s + b.drop_last());
        lemma_drop_end(s, b.drop_last());
    }
}

/// White space around a text is dropped, and nothing else.
pub proof fn law_trimmed(a: Seq<char>, s: Seq<char>, b: Seq<char>)
    requires
        blank(a),
        tight(s),
        blank(b),
    ensures
        trimmed(a + s + b) == s,
{
    if s.len() == 0 {
        assert(a + s + b =~= (a + b) + s);
        assert forall|i: int| 0 <= i < (a + b).len() implies white(#[trigger] (a + b)[i]) by {
            if i >= a.len() {
                assert(b[i - a.len()] == (a + b)[i]);
            } else {
                assert(a[i] == (a + b)[i]);
            }
        }
        lemma_skip(a + b, s);
        assert(s =~= Seq::<char>::empty());
    } else {
        assert(a + s + b =~= a + (s + b));
        assert((s + b)[0] == s[0]);
        lemma_skip(a, s + b);
        lemma_drop_end(s, b);
    }
}

/// A request asks what its parameter says, and where that is missing or blank, what its body
/// says; white space around it does not count.
pub proof fn law_request_text(a: Seq<char>, s: Seq<char>, b: Seq<char>, w: Seq<char>, body: Seq<char>)
    requires
        blank(a),
        tight(s),
        blank(b),
        blank(w),
    ensures
        s.len() > 0 ==> request_text(Some(a + s + b), body) == s,
        request_text(Some(w), a + s + b) == s,
        request_text(None, a + s + b) == s,
{
    law_trimmed(a, s, b);
    let none = Seq::<char>::empty();
    law_trimmed(w, none, none);
    assert(w + none + none =~= w);
}

} // verus!
