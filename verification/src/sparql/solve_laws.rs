//! What holds of the evaluation of every pattern.

use crate::hypertrie::engine::{hybrid_fits, hybrid_rows};
use crate::hypertrie::executor::{capped, stop_after};
use crate::hypertrie::permutations::Permutations;
use crate::sparql::algebra::{AggregateView, ExprView, Pattern, PatternView, TripleView};
use crate::sparql::bgp::{bgp_columns, bgp_outcome, id_triples};
use crate::sparql::bind::{bind_id, bind_outcome, bound_rows};
use crate::sparql::expr::Scope;
use crate::sparql::grouping::{
    computed, computed_id, group_cells, group_keys, group_members, group_outcome,
    group_rows,
};
use crate::sparql::modifiers::{
    is_modifier, law_limit_pushdown, lemma_peeled_smaller, peeled, pushdown, selected,
};
use crate::sparql::numbers::Replies;
use crate::sparql::solve::{answered, solved, unread, Setting};
use crate::sparql::tables::{any_row, join_tables, join_vars, Table};
use vstd::prelude::*;

verus! {

/// Whether a pattern may add terms to the dictionary: it computes a value or an
/// aggregate somewhere.
pub open spec fn adds_terms(p: PatternView) -> bool
    decreases p,
{
    match p {
        PatternView::Extend(_, _, _) => true,
        PatternView::Group(_, _, _) => true,
        PatternView::Bgp(_) => false,
        PatternView::Path(_, _, _) => false,
        PatternView::Values => false,
        PatternView::Join(a, b) => adds_terms(*a) || adds_terms(*b),
        PatternView::LeftJoin(a, b, _) => adds_terms(*a) || adds_terms(*b),
        PatternView::Union(a, b) => adds_terms(*a) || adds_terms(*b),
        PatternView::Minus(a, b) => adds_terms(*a) || adds_terms(*b),
        PatternView::Filter(_, q) => adds_terms(*q),
        PatternView::Graph(q) => adds_terms(*q),
        PatternView::Service(q) => adds_terms(*q),
        PatternView::Order(_, q) => adds_terms(*q),
        PatternView::Project(_, q) => adds_terms(*q),
        PatternView::Distinct(q) => adds_terms(*q),
        PatternView::Reduced(q) => adds_terms(*q),
        PatternView::Slice(_, _, q) => adds_terms(*q),
    }
}

/// Whether a pattern may add terms to the dictionary.
pub fn contains_extend(gp: &Pattern) -> (r: bool)
    ensures
        r == adds_terms(gp.view()),
    decreases gp,
{
    match gp {
        Pattern::Extend(_, _, _) => true,
        Pattern::Group(_, _, _) => true,
        Pattern::Bgp(_) => false,
        Pattern::Path(_, _, _) => false,
        Pattern::Values => false,
        Pattern::Join(a, b) => contains_extend(a) || contains_extend(b),
        Pattern::LeftJoin(a, b, _) => contains_extend(a) || contains_extend(b),
        Pattern::Union(a, b) => contains_extend(a) || contains_extend(b),
        Pattern::Minus(a, b) => contains_extend(a) || contains_extend(b),
        Pattern::Filter(_, q) => contains_extend(q),
        Pattern::Graph(q) => contains_extend(q),
        Pattern::Service(q) => contains_extend(q),
        Pattern::Order(_, q) => contains_extend(q),
        Pattern::Project(_, q) => contains_extend(q),
        Pattern::Distinct(q) => contains_extend(q),
        Pattern::Reduced(q) => contains_extend(q),
        Pattern::Slice(_, _, q) => contains_extend(q),
    }
}

/// The setting, with or without the right to add terms.
pub open spec fn with_access(s: Setting, writable: bool) -> Setting {
    Setting { index: s.index, num: s.num, cap: s.cap, writable }
}

proof fn lemma_peeled_adds(p: PatternView)
    ensures
        adds_terms(peeled(p).pattern) == adds_terms(p),
{
    let p1 = crate::sparql::modifiers::under_slice(p);
    let p2 = crate::sparql::modifiers::under_distinct(p1);
    let p3 = crate::sparql::modifiers::under_project(p2);
    let p4 = crate::sparql::modifiers::under_order(p3);
    assert(adds_terms(p) == adds_terms(p1));
    assert(adds_terms(p1) == adds_terms(p2));
    assert(adds_terms(p2) == adds_terms(p3));
    assert(adds_terms(p3) == adds_terms(p4));
}

/// A pattern that adds no terms needs no right to do so: the dictionary stays,
/// and the solutions are the same either way.
pub proof fn law_reading_suffices(s: Setting, keys: Seq<Seq<char>>, p: PatternView, limit: Option<usize>)
    requires
        !adds_terms(p),
    ensures
        solved(with_access(s, true), keys, p, limit).1 == keys,
        solved(with_access(s, false), keys, p, limit).1 == keys,
        solved(with_access(s, true), keys, p, limit).0 is Ok <==> solved(
            with_access(s, false),
            keys,
            p,
            limit,
        ).0 is Ok,
        solved(with_access(s, true), keys, p, limit).0 is Ok ==> solved(
            with_access(s, true),
            keys,
            p,
            limit,
        ).0 == solved(with_access(s, false), keys, p, limit).0,
    decreases p,
{
    match p {
        PatternView::Filter(_, q) => {
            law_reading_suffices(s, keys, *q, None);
        },
        PatternView::Join(a, b) => {
            law_reading_suffices(s, keys, *a, None);
            law_reading_suffices(s, keys, *b, None);
        },
        PatternView::LeftJoin(a, b, _) => {
            law_reading_suffices(s, keys, *a, None);
            law_reading_suffices(s, keys, *b, None);
        },
        PatternView::Union(a, b) => {
            law_reading_suffices(s, keys, *a, None);
            law_reading_suffices(s, keys, *b, None);
        },
        _ => {
            if is_modifier(p) {
                let m = peeled(p);
                lemma_peeled_smaller(p);
                lemma_peeled_adds(p);
                law_reading_suffices(s, keys, m.pattern, pushdown(m));
            }
        },
    }
}

/// The same for a whole query.
pub proof fn law_reading_answers(s: Setting, keys: Seq<Seq<char>>, p: PatternView)
    requires
        !adds_terms(p),
    ensures
        answered(with_access(s, true), keys, p).1 == keys,
        answered(with_access(s, false), keys, p).0 is Ok ==> answered(
            with_access(s, true),
            keys,
            p,
        ).0 == answered(with_access(s, false), keys, p).0,
{
    let m = peeled(p);
    lemma_peeled_adds(p);
    law_reading_suffices(s, keys, m.pattern, pushdown(m));
}

// --- Joins with nothing ------------------------------------------------------------------

/// A join whose left part has no row has none, and a basic graph pattern on its
/// right is not read: whatever it would give, even more rows than are allowed,
/// the join succeeds.
pub proof fn law_nothing_to_join(
    s: Setting,
    keys: Seq<Seq<char>>,
    a: PatternView,
    ts: Seq<TripleView>,
    limit: Option<usize>,
)
    requires
        solved(s, keys, a, None).0 is Ok,
        (solved(s, keys, a, None).0->Ok_0).rows.len() == 0,
    ensures
        ({
            let (l, k) = solved(s, keys, a, None);
            solved(s, keys, PatternView::Join(Box::new(a), Box::new(PatternView::Bgp(ts))), limit) == (
                Ok::<Table, Seq<char>>(
                    Table {
                        vars: join_vars((l->Ok_0).vars, bgp_columns(k, ts)),
                        rows: Seq::empty(),
                    },
                ),
                k,
            )
        }),
{
    let (l, k) = solved(s, keys, a, None);
    let r = Table { vars: bgp_columns(k, ts), rows: Seq::empty() };
    let t = join_tables(l->Ok_0, r, any_row(), false);
    assert(t.rows =~= Seq::<Seq<u32>>::empty());
    assert(unread(l->Ok_0, k, PatternView::Bgp(ts)) == Some(r));
}

// --- The dictionary only grows ---------------------------------------------------------

/// Every key of `a` is in `b`, in its place.
pub open spec fn grown(a: Seq<Seq<char>>, b: Seq<Seq<char>>) -> bool {
    a.is_prefix_of(b)
}

proof fn lemma_grown_twice(a: Seq<Seq<char>>, b: Seq<Seq<char>>, c: Seq<Seq<char>>)
    requires
        grown(a, b),
        grown(b, c),
    ensures
        grown(a, c),
{
    assert(a =~= c.take(a.len() as int));
}

proof fn lemma_bound_rows_grow(num: Replies, keys: Seq<Seq<char>>, t: Table, e: ExprView, n: int)
    ensures
        grown(keys, bound_rows(num, keys, t, e, n).1),
    decreases n,
{
    if n > 0 {
        lemma_bound_rows_grow(num, keys, t, e, n - 1);
        let before = bound_rows(num, keys, t, e, n - 1);
        if before.0 is Some {
            let after = bind_id(
                e,
                Scope { num, keys: before.1, vars: t.vars, row: t.rows[n - 1] },
            ).1;
            assert(grown(before.1, after));
            lemma_grown_twice(keys, before.1, after);
        }
    }
}

proof fn lemma_cells_grow(
    num: Replies,
    keys: Seq<Seq<char>>,
    vars: Seq<Seq<char>>,
    rows: Seq<Seq<u32>>,
    aggs: Seq<AggregateView>,
    m: int,
)
    ensures
        grown(keys, group_cells(num, keys, vars, rows, aggs, m).1),
    decreases m,
{
    if m > 0 {
        lemma_cells_grow(num, keys, vars, rows, aggs, m - 1);
        let before = group_cells(num, keys, vars, rows, aggs, m - 1);
        if before.0 is Some {
            let after = computed_id(
                before.1,
                computed(num, before.1, vars, rows, aggs[m - 1]),
            ).1;
            assert(grown(before.1, after));
            lemma_grown_twice(keys, before.1, after);
        }
    }
}

proof fn lemma_group_rows_grow(
    num: Replies,
    keys: Seq<Seq<char>>,
    by: Seq<Seq<char>>,
    aggs: Seq<AggregateView>,
    t: Table,
    n: int,
)
    ensures
        grown(keys, group_rows(num, keys, by, aggs, t, n).1),
    decreases n,
{
    if n > 0 {
        lemma_group_rows_grow(num, keys, by, aggs, t, n - 1);
        let before = group_rows(num, keys, by, aggs, t, n - 1);
        if before.0 is Some {
            let rows = group_members(by, t, group_keys(by, t)[n - 1]);
            lemma_cells_grow(num, before.1, t.vars, rows, aggs, aggs.len() as int);
            let after = group_cells(num, before.1, t.vars, rows, aggs, aggs.len() as int).1;
            lemma_grown_twice(keys, before.1, after);
        }
    }
}

/// Evaluation keeps every term of the dictionary under its identifier.
pub proof fn law_dictionary_grows(s: Setting, keys: Seq<Seq<char>>, p: PatternView, limit: Option<usize>)
    ensures
        grown(keys, solved(s, keys, p, limit).1),
    decreases p,
{
    match p {
        PatternView::Filter(_, q) => {
            law_dictionary_grows(s, keys, *q, None);
        },
        PatternView::Join(a, b) => {
            law_dictionary_grows(s, keys, *a, None);
            let k = solved(s, keys, *a, None).1;
            law_dictionary_grows(s, k, *b, None);
            lemma_grown_twice(keys, k, solved(s, k, *b, None).1);
        },
        PatternView::LeftJoin(a, b, _) => {
            law_dictionary_grows(s, keys, *a, None);
            let k = solved(s, keys, *a, None).1;
            law_dictionary_grows(s, k, *b, None);
            lemma_grown_twice(keys, k, solved(s, k, *b, None).1);
        },
        PatternView::Union(a, b) => {
            law_dictionary_grows(s, keys, *a, None);
            let k = solved(s, keys, *a, None).1;
            law_dictionary_grows(s, k, *b, None);
            lemma_grown_twice(keys, k, solved(s, k, *b, None).1);
        },
        PatternView::Extend(q, var, e) => {
            law_dictionary_grows(s, keys, *q, None);
            let (r, k) = solved(s, keys, *q, None);
            if s.writable && r is Ok {
                lemma_bound_rows_grow(s.num, k, r->Ok_0, e, (r->Ok_0).rows.len() as int);
                lemma_grown_twice(keys, k, bind_outcome(s.num, k, r->Ok_0, var, e).1);
            }
        },
        PatternView::Group(by, aggs, q) => {
            law_dictionary_grows(s, keys, *q, None);
            let (r, k) = solved(s, keys, *q, None);
            if s.writable && r is Ok {
                let t = r->Ok_0;
                lemma_group_rows_grow(s.num, k, by, aggs, t, group_keys(by, t).len() as int);
                lemma_grown_twice(keys, k, group_outcome(s.num, k, by, aggs, t).1);
            }
        },
        _ => {
            if is_modifier(p) {
                let m = peeled(p);
                lemma_peeled_smaller(p);
                law_dictionary_grows(s, keys, m.pattern, pushdown(m));
            }
        },
    }
}

// --- Limits ----------------------------------------------------------------------------

proof fn lemma_limited_bgp(
    index: Permutations,
    keys: Seq<Seq<char>>,
    ts: Seq<TripleView>,
    limit: usize,
    cap: usize,
)
    requires
        bgp_outcome(index, keys, ts, None, cap) is Ok,
    ensures
        ({
            let t = bgp_outcome(index, keys, ts, None, cap)->Ok_0;
            bgp_outcome(index, keys, ts, Some(limit), cap) == Ok::<Table, Seq<char>>(
                Table {
                    vars: t.vars,
                    rows: if t.rows.len() <= limit {
                        t.rows
                    } else {
                        t.rows.take(limit as int)
                    },
                },
            )
        }),
{
    if let Some(ps) = id_triples(keys, ts) {
        let all = hybrid_rows(&index, ps);
        let t = bgp_outcome(index, keys, ts, None, cap)->Ok_0;
        let few = capped(all, stop_after(Some(limit), cap));
        assert(hybrid_fits(&index, ps, Some(limit), cap));
        if t.rows.len() <= limit {
            assert(few =~= t.rows);
        } else {
            assert(few =~= t.rows.take(limit as int));
        }
    }
}

/// A limit that reaches the pattern changes no answer: where the pattern alone
/// can be evaluated in full, the query gives what the modifiers make of all its
/// solutions.
pub proof fn law_limit_preserves_answers(s: Setting, keys: Seq<Seq<char>>, p: PatternView)
    requires
        solved(s, keys, peeled(p).pattern, None).0 is Ok,
        (solved(s, keys, peeled(p).pattern, None).0->Ok_0).rows.len() <= usize::MAX,
    ensures
        ({
            let (all, k) = solved(s, keys, peeled(p).pattern, None);
            answered(s, keys, p) == (selected(s.num, k, peeled(p), all->Ok_0), k)
        }),
{
    let m = peeled(p);
    let q = m.pattern;
    if let Some(l) = pushdown(m) {
        match q {
            PatternView::Bgp(ts) => {
                let t = bgp_outcome(s.index, keys, ts, None, s.cap)->Ok_0;
                lemma_limited_bgp(s.index, keys, ts, l, s.cap);
                law_limit_pushdown(s.num, keys, m, t, l);
            },
            _ => {
                assert(solved(s, keys, q, Some(l)) == solved(s, keys, q, None));
            },
        }
    }
}

} // verus!
