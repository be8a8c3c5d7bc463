//! What a store holds and what it answers.

use crate::hypertrie::csr::{
    increasing2, increasing3, lemma_pairs_in_order, lemma_triples_in_order_of, pair_set, pairs_in_order,
    triple_set, IdTriple,
};
use crate::hypertrie::dictionary::{term_key, with_key};
use crate::hypertrie::engine::{cyclic, joined, lemma_joined, max_rows_of, pattern_cyclic, pattern_edges, Edge};
use crate::hypertrie::estimate_laws::lemma_finite;
use crate::hypertrie::export::{TermText, TripleText};
use crate::hypertrie::permutations::{
    answer, objects, os_pairs, po_pairs, predicates, sp_pairs, subjects, Answer, Term, Var,
};
use crate::hypertrie::planner::PatTriple;
use crate::hypertrie::query::{id_triple, id_triples, keys_after, loaded, text_key, TripleStore};
use crate::hypertrie::relation::{objects_of, pairs_under, subjects_of};
use crate::hypertrie::executor::DEFAULT_MAX_ROWS;
use crate::sorted::{in_order, increasing, lemma_in_order_of, members};
use crate::text::{decimal, digits_value, law_decimal_reads_back};
use vstd::prelude::*;

verus! {

// --- Queries ---------------------------------------------------------------------------

/// The identifiers are in order, and they are those with this property.
pub open spec fn lists_ids(list: Seq<u32>, holds: spec_fn(u32) -> bool) -> bool {
    &&& increasing(list)
    &&& forall|a: u32| #[trigger] list.contains(a) <==> holds(a)
}

/// The pairs are in order, and they are those with this property.
pub open spec fn lists_pairs(list: Seq<(u32, u32)>, holds: spec_fn((u32, u32)) -> bool) -> bool {
    &&& increasing2(list)
    &&& forall|q: (u32, u32)| #[trigger] list.contains(q) <==> holds(q)
}

proof fn lemma_ids(set: Set<IdTriple>, found: Set<u32>, f: spec_fn(u32) -> IdTriple, holds: spec_fn(u32) -> bool)
    requires
        set.finite(),
        forall|a: u32, b: u32| #[trigger] f(a) == #[trigger] f(b) ==> a == b,
        forall|a: u32| #[trigger] found.contains(a) <==> set.contains(f(a)),
        forall|a: u32| #[trigger] holds(a) <==> set.contains(f(a)),
    ensures
        lists_ids(in_order(found), holds),
{
    let all = set.filter(|x: IdTriple| exists|a: u32| x == #[trigger] f(a));
    assert forall|a: u32| #[trigger] found.contains(a) <==> all.contains(f(a)) by {}
    lemma_finite(found, all, f);
    lemma_in_order_of(found);
    let list = in_order(found);
    assert forall|a: u32| #[trigger] list.contains(a) <==> holds(a) by {
        assert(members(list).contains(a) <==> found.contains(a));
    }
}

proof fn lemma_pairs(
    set: Set<IdTriple>,
    found: Set<(u32, u32)>,
    f: spec_fn((u32, u32)) -> IdTriple,
    holds: spec_fn((u32, u32)) -> bool,
)
    requires
        set.finite(),
        forall|a: (u32, u32), b: (u32, u32)| #[trigger] f(a) == #[trigger] f(b) ==> a == b,
        forall|a: (u32, u32)| #[trigger] found.contains(a) <==> set.contains(f(a)),
        forall|a: (u32, u32)| #[trigger] holds(a) <==> set.contains(f(a)),
    ensures
        lists_pairs(pairs_in_order(found), holds),
{
    let all = set.filter(|x: IdTriple| exists|a: (u32, u32)| x == #[trigger] f(a));
    assert forall|a: (u32, u32)| #[trigger] found.contains(a) <==> all.contains(f(a)) by {}
    lemma_finite(found, all, f);
    let leq = |a: (u32, u32), b: (u32, u32)| a.0 < b.0 || (a.0 == b.0 && a.1 <= b.1);
    let s = crate::order::lemma_sorted_list(found, leq);
    assert forall|i: int, j: int| 0 <= i < j < s.len() implies {
        ||| s[i].0 < s[j].0
        ||| s[i].0 == s[j].0 && s[i].1 < s[j].1
    } by {
        assert(leq(s[i], s[j]));
    }
    assert(increasing2(s));
    assert(pair_set(s) =~= found);
    lemma_pairs_in_order(s);
    assert forall|q: (u32, u32)| #[trigger] s.contains(q) <==> holds(q) by {
        assert(pair_set(s).contains(q) <==> found.contains(q));
    }
}

/// A query is answered by what makes it a stored triple: whether it is one, where it has no
/// wildcard, else the values of its wildcards, in order.
pub proof fn law_query_answer(set: Set<IdTriple>, a: u32, b: u32, c: u32)
    requires
        set.finite(),
    ensures
        answer(set, Term::Bound(a), Term::Bound(b), Term::Bound(c)) == Answer::Exact(set.contains((a, b, c))),
        answer(set, Term::Bound(a), Term::Bound(b), Term::Wildcard) matches Answer::Single(Var::O, l) && lists_ids(
            l,
            |o: u32| set.contains((a, b, o)),
        ),
        answer(set, Term::Bound(a), Term::Wildcard, Term::Bound(c)) matches Answer::Single(Var::P, l) && lists_ids(
            l,
            |p: u32| set.contains((a, p, c)),
        ),
        answer(set, Term::Wildcard, Term::Bound(b), Term::Bound(c)) matches Answer::Single(Var::S, l) && lists_ids(
            l,
            |s: u32| set.contains((s, b, c)),
        ),
        answer(set, Term::Bound(a), Term::Wildcard, Term::Wildcard) matches Answer::Double(Var::P, Var::O, l)
            && lists_pairs(l, |q: (u32, u32)| set.contains((a, q.0, q.1))),
        answer(set, Term::Wildcard, Term::Bound(b), Term::Wildcard) matches Answer::Double(Var::O, Var::S, l)
            && lists_pairs(l, |q: (u32, u32)| set.contains((q.1, b, q.0))),
        answer(set, Term::Wildcard, Term::Wildcard, Term::Bound(c)) matches Answer::Double(Var::S, Var::P, l)
            && lists_pairs(l, |q: (u32, u32)| set.contains((q.0, q.1, c))),
        answer(set, Term::Wildcard, Term::Wildcard, Term::Wildcard) matches Answer::All(l) && increasing3(l)
            && triple_set(l) == set,
{
    lemma_ids(set, objects(set, a, b), |o: u32| (a, b, o), |o: u32| set.contains((a, b, o)));
    lemma_ids(set, predicates(set, a, c), |p: u32| (a, p, c), |p: u32| set.contains((a, p, c)));
    lemma_ids(set, subjects(set, b, c), |s: u32| (s, b, c), |s: u32| set.contains((s, b, c)));
    lemma_pairs(
        set,
        po_pairs(set, a),
        |q: (u32, u32)| (a, q.0, q.1),
        |q: (u32, u32)| set.contains((a, q.0, q.1)),
    );
    lemma_pairs(
        set,
        os_pairs(set, b),
        |q: (u32, u32)| (q.1, b, q.0),
        |q: (u32, u32)| set.contains((q.1, b, q.0)),
    );
    lemma_pairs(
        set,
        sp_pairs(set, c),
        |q: (u32, u32)| (q.0, q.1, c),
        |q: (u32, u32)| set.contains((q.0, q.1, c)),
    );
    lemma_triples_in_order_of(set);
}

// --- Loading ---------------------------------------------------------------------------

/// The identifiers stand, in their order, for the terms of the triple.
pub open spec fn encodes(keys: Seq<Seq<char>>, t: TripleText, x: IdTriple) -> bool {
    &&& is_key_of(keys, t.subject, x.0)
    &&& is_key_of(keys, t.predicate, x.1)
    &&& is_key_of(keys, t.object, x.2)
}

/// The identifier stands for the term.
pub open spec fn is_key_of(keys: Seq<Seq<char>>, t: TermText, id: u32) -> bool {
    id < keys.len() && keys[id as int] == term_key(t.value, t.typ)
}

proof fn lemma_key_added(keys: Seq<Seq<char>>, key: Seq<char>)
    requires
        keys.no_duplicates(),
    ensures
        with_key(keys, key).no_duplicates(),
        with_key(keys, key).contains(key),
        forall|k: Seq<char>| keys.contains(k) ==> #[trigger] with_key(keys, key).contains(k),
{
    let more = with_key(keys, key);
    if !keys.contains(key) {
        assert(more[keys.len() as int] == key);
        assert forall|k: Seq<char>| keys.contains(k) implies #[trigger] more.contains(k) by {
            let i = choose|i: int| 0 <= i < keys.len() && keys[i] == k;
            assert(more[i] == k);
        }
    }
}

proof fn lemma_keys_after(keys: Seq<Seq<char>>, ts: Seq<TripleText>)
    requires
        keys.no_duplicates(),
    ensures
        keys_after(keys, ts).no_duplicates(),
        forall|i: int|
            0 <= i < ts.len() ==> keys_after(keys, ts).contains(text_key((#[trigger] ts[i]).subject)) && keys_after(
                keys,
                ts,
            ).contains(text_key(ts[i].predicate)) && keys_after(keys, ts).contains(text_key(ts[i].object)),
    decreases ts.len(),
{
    if ts.len() > 0 {
        let less = ts.drop_last();
        let t = ts.last();
        lemma_keys_after(keys, less);
        let k0 = keys_after(keys, less);
        let k1 = with_key(k0, text_key(t.subject));
        let k2 = with_key(k1, text_key(t.predicate));
        lemma_key_added(k0, text_key(t.subject));
        lemma_key_added(k1, text_key(t.predicate));
        lemma_key_added(k2, text_key(t.object));
        let k3 = keys_after(keys, ts);
        assert forall|i: int| 0 <= i < ts.len() implies k3.contains(text_key((#[trigger] ts[i]).subject))
            && k3.contains(text_key(ts[i].predicate)) && k3.contains(text_key(ts[i].object)) by {
            if i < less.len() {
                assert(less[i] == ts[i]);
            }
        }
    }
}

proof fn lemma_encodes(keys: Seq<Seq<char>>, t: TripleText, x: IdTriple)
    requires
        keys.no_duplicates(),
        keys.len() <= u32::MAX,
        keys.contains(text_key(t.subject)),
        keys.contains(text_key(t.predicate)),
        keys.contains(text_key(t.object)),
    ensures
        encodes(keys, t, x) <==> x == id_triple(keys, t),
{
    let a = keys.index_of(text_key(t.subject));
    let b = keys.index_of(text_key(t.predicate));
    let c = keys.index_of(text_key(t.object));
    assert(keys[a] == text_key(t.subject) && keys[b] == text_key(t.predicate) && keys[c] == text_key(t.object));
}

/// A store that was loaded holds exactly the triples of the document.
pub proof fn law_loaded_triples(before: TripleStore, ts: Seq<TripleText>, after: TripleStore, n: usize, x: IdTriple)
    requires
        before.dict.keys().no_duplicates(),
        loaded(before, ts, after, Some(n)),
    ensures
        n == ts.len(),
        after.triples().contains(x) <==> exists|i: int|
            0 <= i < ts.len() && encodes(after.dict.keys(), #[trigger] ts[i], x),
{
    let keys = after.dict.keys();
    lemma_keys_after(before.dict.keys(), ts);
    let ids = id_triples(keys, ts);
    if after.triples().contains(x) {
        assert(ids.contains(x));
        let i = choose|i: int| 0 <= i < ids.len() && ids[i] == x;
        lemma_encodes(keys, ts[i], x);
        assert(encodes(keys, ts[i], x));
    }
    if exists|i: int| 0 <= i < ts.len() && encodes(keys, #[trigger] ts[i], x) {
        let i = choose|i: int| 0 <= i < ts.len() && encodes(keys, #[trigger] ts[i], x);
        lemma_encodes(keys, ts[i], x);
        assert(ids[i] == x);
        assert(triple_set(ids).contains(x));
    }
}


// --- Relations -------------------------------------------------------------------------

/// A relation of a predicate has the pairs of its triples; the objects of a subject and the
/// subjects of an object are those that it pairs with them.
pub proof fn law_relations(pid: u32, triples: Seq<IdTriple>, s: u32, o: u32)
    ensures
        ({
            let r = pairs_under(pid, triples);
            let stored = triples.contains((s, pid, o));
            &&& r.contains((s, o)) <==> stored
            &&& objects_of(r, s).contains(o) <==> stored
            &&& subjects_of(r, o).contains(s) <==> stored
            &&& stored ==> crate::hypertrie::relation::subjects(r).contains(s)
                && crate::hypertrie::relation::objects(r).contains(o)
            &&& crate::hypertrie::relation::subjects(r).contains(s) <==> exists|x: u32|
                triples.contains((s, pid, x))
            &&& crate::hypertrie::relation::objects(r).contains(o) <==> exists|x: u32|
                triples.contains((x, pid, o))
        }),
{
    let r = pairs_under(pid, triples);
    if crate::hypertrie::relation::subjects(r).contains(s) {
        let x = choose|x: u32| r.contains((s, x));
        assert(triples.contains((s, pid, x)));
    }
    if exists|x: u32| triples.contains((s, pid, x)) {
        let x = choose|x: u32| triples.contains((s, pid, x));
        assert(r.contains((s, x)));
    }
    if crate::hypertrie::relation::objects(r).contains(o) {
        let x = choose|x: u32| r.contains((x, o));
        assert(triples.contains((x, pid, o)));
    }
    if exists|x: u32| triples.contains((x, pid, o)) {
        let x = choose|x: u32| triples.contains((x, pid, o));
        assert(r.contains((x, o)));
    }
    if triples.contains((s, pid, o)) {
        assert(r.contains((s, o)));
    }
}

// --- Settings --------------------------------------------------------------------------

/// The allowed number of rows is the number that the setting writes, and the default where
/// there is none.
pub proof fn law_row_setting(n: usize, text: Seq<char>, i: int)
    ensures
        max_rows_of(Some(decimal(n as nat))) == n,
        max_rows_of(None) == DEFAULT_MAX_ROWS,
        0 < i < text.len() && !('0' <= text[i] <= '9') ==> max_rows_of(Some(text)) == DEFAULT_MAX_ROWS,
{
    law_decimal_reads_back(n as nat);
    if 0 < i < text.len() && !('0' <= text[i] <= '9') {
        let digits = if text[0] == '+' {
            text.skip(1)
        } else {
            text
        };
        let k = if text[0] == '+' {
            i - 1
        } else {
            i
        };
        assert(digits[k] == text[i]);
        lemma_no_number(digits, k);
    }
}

proof fn lemma_no_number(s: Seq<char>, i: int)
    requires
        0 <= i < s.len(),
        !('0' <= s[i] <= '9'),
    ensures
        digits_value(s) is None,
    decreases s.len(),
{
    if i < s.len() - 1 {
        lemma_no_number(s.drop_last(), i);
    }
}

// --- Cycles ----------------------------------------------------------------------------

/// Two names are the ends of an edge.
pub open spec fn are_ends(edges: Seq<Edge>, a: Seq<char>, b: Seq<char>) -> bool {
    edges.contains((a, b)) || edges.contains((b, a))
}

/// A way along the edges, from name to name.
pub open spec fn is_way(edges: Seq<Edge>, way: Seq<Seq<char>>, a: Seq<char>, b: Seq<char>) -> bool {
    &&& way.len() > 0
    &&& way[0] == a
    &&& way.last() == b
    &&& forall|i: int| 0 <= i < way.len() - 1 ==> #[trigger] is_step(edges, way, i)
}

/// Step `i` of the way goes along an edge.
pub open spec fn is_step(edges: Seq<Edge>, way: Seq<Seq<char>>, i: int) -> bool {
    are_ends(edges, way[i], way[i + 1])
}

proof fn lemma_more_edges(edges: Seq<Edge>, way: Seq<Seq<char>>, a: Seq<char>, b: Seq<char>)
    requires
        edges.len() > 0,
        is_way(edges.drop_last(), way, a, b),
    ensures
        is_way(edges, way, a, b),
{
    let less = edges.drop_last();
    assert forall|i: int| 0 <= i < way.len() - 1 implies #[trigger] is_step(edges, way, i) by {
        assert(is_step(less, way, i));
        lemma_still_ends(edges, way[i], way[i + 1]);
    }
}

proof fn lemma_still_ends(edges: Seq<Edge>, a: Seq<char>, b: Seq<char>)
    requires
        edges.len() > 0,
        are_ends(edges.drop_last(), a, b),
    ensures
        are_ends(edges, a, b),
{
    let less = edges.drop_last();
    if less.contains((a, b)) {
        let i = choose|i: int| 0 <= i < less.len() && less[i] == (a, b);
        assert(edges[i] == (a, b));
    } else {
        let i = choose|i: int| 0 <= i < less.len() && less[i] == (b, a);
        assert(edges[i] == (b, a));
    }
}

/// Two ways with an edge between them are one way.
proof fn lemma_linked_ways(
    edges: Seq<Edge>,
    v: Seq<Seq<char>>,
    w: Seq<Seq<char>>,
    a: Seq<char>,
    x: Seq<char>,
    y: Seq<char>,
    b: Seq<char>,
)
    requires
        is_way(edges, v, a, x),
        is_way(edges, w, y, b),
        are_ends(edges, x, y),
    ensures
        is_way(edges, v + w, a, b),
{
    let all = v + w;
    assert forall|i: int| 0 <= i < all.len() - 1 implies #[trigger] is_step(edges, all, i) by {
        if i < v.len() - 1 {
            assert(is_step(edges, v, i));
        } else if i >= v.len() {
            assert(is_step(edges, w, i - v.len()));
        }
    }
}

proof fn lemma_way_of(edges: Seq<Edge>, a: Seq<char>, b: Seq<char>) -> (way: Seq<Seq<char>>)
    requires
        joined(edges, a, b),
    ensures
        is_way(edges, way, a, b),
    decreases edges.len(),
{
    if edges.len() == 0 {
        seq![a]
    } else {
        let rest = edges.drop_last();
        let (x, y) = edges.last();
        assert(edges[edges.len() - 1] == (x, y));
        assert(edges.contains((x, y)));
        if joined(rest, a, b) {
            let way = lemma_way_of(rest, a, b);
            lemma_more_edges(edges, way, a, b);
            way
        } else if joined(rest, a, x) && joined(rest, y, b) {
            let v = lemma_way_of(rest, a, x);
            let w = lemma_way_of(rest, y, b);
            lemma_more_edges(edges, v, a, x);
            lemma_more_edges(edges, w, y, b);
            lemma_linked_ways(edges, v, w, a, x, y, b);
            v + w
        } else {
            let v = lemma_way_of(rest, a, y);
            let w = lemma_way_of(rest, x, b);
            lemma_more_edges(edges, v, a, y);
            lemma_more_edges(edges, w, x, b);
            lemma_linked_ways(edges, v, w, a, y, x, b);
            v + w
        }
    }
}

proof fn lemma_edge_joins(edges: Seq<Edge>, i: int)
    requires
        0 <= i < edges.len(),
    ensures
        joined(edges, edges[i].0, edges[i].1),
    decreases edges.len(),
{
    let rest = edges.drop_last();
    let (x, y) = edges[i];
    if i == edges.len() - 1 {
        lemma_joined(rest, x, x, x);
        lemma_joined(rest, y, y, y);
    } else {
        lemma_edge_joins(rest, i);
    }
}

proof fn lemma_way_joins(edges: Seq<Edge>, way: Seq<Seq<char>>, a: Seq<char>, b: Seq<char>)
    requires
        is_way(edges, way, a, b),
    ensures
        joined(edges, a, b),
    decreases way.len(),
{
    if way.len() == 1 {
        lemma_joined(edges, a, a, a);
    } else {
        let less = way.drop_last();
        let c = less.last();
        assert forall|i: int| 0 <= i < less.len() - 1 implies #[trigger] is_step(edges, less, i) by {
            assert(is_step(edges, way, i));
        }
        lemma_way_joins(edges, less, a, c);
        assert(is_step(edges, way, way.len() - 2));
        if edges.contains((c, b)) {
            let i = choose|i: int| 0 <= i < edges.len() && edges[i] == (c, b);
            lemma_edge_joins(edges, i);
        } else {
            let i = choose|i: int| 0 <= i < edges.len() && edges[i] == (b, c);
            lemma_edge_joins(edges, i);
            lemma_joined(edges, b, c, c);
        }
        lemma_joined(edges, a, c, b);
    }
}

/// A pattern is cyclic exactly if one of its edges closes a way along the edges before it.
pub proof fn law_cycles(ps: Seq<PatTriple>)
    ensures
        pattern_cyclic(ps) <==> ps.len() >= 2 && exists|k: int, way: Seq<Seq<char>>|
            0 <= k < pattern_edges(ps).len() && #[trigger] closes(pattern_edges(ps), k, way),
{
    let edges = pattern_edges(ps);
    lemma_cyclic(edges);
    if cyclic(edges) {
        let (k, way) = choose|k: int, way: Seq<Seq<char>>|
            0 <= k < edges.len() && #[trigger] closes(edges, k, way);
        assert(closes(edges, k, way));
    }
}

/// Edge `k` closes the way along the edges before it.
pub open spec fn closes(edges: Seq<Edge>, k: int, way: Seq<Seq<char>>) -> bool {
    is_way(edges.take(k), way, edges[k].0, edges[k].1)
}

proof fn lemma_cyclic(edges: Seq<Edge>)
    ensures
        cyclic(edges) <==> exists|k: int, way: Seq<Seq<char>>|
            0 <= k < edges.len() && #[trigger] closes(edges, k, way),
    decreases edges.len(),
{
    if edges.len() > 0 {
        let less = edges.drop_last();
        let n = less.len() as int;
        lemma_cyclic(less);
        assert(edges.take(n) =~= less);
        if cyclic(edges) {
            if cyclic(less) {
                let (k, way) = choose|k: int, way: Seq<Seq<char>>|
                    0 <= k < less.len() && #[trigger] closes(less, k, way);
                assert(edges.take(k) =~= less.take(k));
                assert(closes(edges, k, way));
            } else {
                let way = lemma_way_of(less, edges.last().0, edges.last().1);
                assert(closes(edges, n, way));
            }
        }
        if exists|k: int, way: Seq<Seq<char>>| 0 <= k < edges.len() && #[trigger] closes(edges, k, way) {
            let (k, way) = choose|k: int, way: Seq<Seq<char>>|
                0 <= k < edges.len() && #[trigger] closes(edges, k, way);
            if k < n {
                assert(edges.take(k) =~= less.take(k));
                assert(closes(less, k, way));
            } else {
                lemma_way_joins(less, way, edges[k].0, edges[k].1);
            }
        }
    }
}

} // verus!
