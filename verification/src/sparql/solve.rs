//! Evaluation of graph patterns.
//!
//! A pattern is evaluated against the triples and the dictionary. Computed
//! values and aggregates add terms to the dictionary, so they need a store that
//! may be changed; [`eval_where`] works on any store and refuses them.

use crate::hypertrie::dictionary::Dictionary;
use crate::hypertrie::engine::HybridEngine;
use crate::hypertrie::executor::{kept, lemma_kept};
use crate::hypertrie::permutations::Permutations;
use crate::hypertrie::query::TripleStore;
use crate::hypertrie::rows::RowBlock;
use crate::sparql::algebra::{
    exprs_view, opt_expr_view, texts, Expr, ExprView, Pattern, PatternView,
};
use crate::sparql::bgp::{bgp_columns, bgp_outcome, columns_of_bgp, eval_bgp};
use crate::sparql::bind::{bind_column, bind_outcome};
use crate::sparql::expr::{ebv, ev, opt_truth, Scope};
use crate::sparql::grouping::{group_outcome, group_table};
use crate::sparql::modifiers::{
    apply_modifiers, find_limit, lemma_peeled_smaller, peel_modifiers, peeled, pushdown, selected,
    Modifiers,
};
use crate::sparql::numbers::{numbers_ok, replies, NumberCall, NumberReply, Replies};
use crate::sparql::paths::{eval_path, path_outcome};
use crate::sparql::tables::{
    any_row, hash_join, join_columns, join_tables, join_vars, outcome, union_rows, union_tables,
    within, AnyRow, Condition, Outcome, RowTest, Solutions, Table,
};
use crate::text::owned;
use vstd::prelude::*;

verus! {

/// What a pattern is evaluated against, besides the dictionary.
pub struct Setting {
    pub index: Permutations,
    pub num: Replies,
    pub cap: usize,
    /// Whether terms may be added.
    pub writable: bool,
}

/// The text of the error for a pattern that cannot be evaluated.
pub open spec fn unsupported_text(writable: bool) -> Seq<char> {
    if writable {
        "Unsupported WHERE pattern (only BGP/FILTER/OPTIONAL/UNION/Join/Path/BIND)"@
    } else {
        "Unsupported WHERE pattern (only BGP/FILTER/OPTIONAL/UNION/Join/Path)"@
    }
}

fn unsupported(writable: bool) -> (r: String)
    ensures
        r@ == unsupported_text(writable),
{
    if writable {
        owned("Unsupported WHERE pattern (only BGP/FILTER/OPTIONAL/UNION/Join/Path/BIND)")
    } else {
        owned("Unsupported WHERE pattern (only BGP/FILTER/OPTIONAL/UNION/Join/Path)")
    }
}

// --- Filters -------------------------------------------------------------------------

/// Whether a row passes a filter: its truth is not false and not an error.
pub open spec fn passes(num: Replies, keys: Seq<Seq<char>>, vars: Seq<Seq<char>>, e: ExprView) -> Condition {
    |row: Seq<u32>| opt_truth(ev(e, Scope { num, keys, vars, row })) == Some(true)
}

/// The rows that pass, in their order.
pub open spec fn kept_rows(cond: Condition, rows: Seq<Seq<u32>>) -> Seq<Seq<u32>> {
    kept(rows, cond)
}

/// A table without the rows that do not pass.
pub open spec fn filtered(num: Replies, keys: Seq<Seq<char>>, t: Table, e: ExprView) -> Table {
    Table { vars: t.vars, rows: kept_rows(passes(num, keys, t.vars, e), t.rows) }
}

/// A filter keeps exactly the rows that pass.
pub proof fn law_filter(cond: Condition, rows: Seq<Seq<u32>>, r: Seq<u32>)
    ensures
        kept_rows(cond, rows).contains(r) <==> rows.contains(r) && cond(r),
{
    lemma_kept(rows, cond);
}

/// The row test of an expression.
struct ExprTest<'a, F: Fn(NumberCall) -> NumberReply> {
    expr: &'a Expr,
    vars: &'a Vec<String>,
    dict: &'a Dictionary,
    numbers: &'a F,
}

impl<'a, F: Fn(NumberCall) -> NumberReply> RowTest for ExprTest<'a, F> {
    closed spec fn holds(&self) -> Condition {
        passes(replies(*self.numbers), self.dict.keys(), texts(self.vars@), self.expr.view())
    }

    closed spec fn fits(&self, width: nat) -> bool {
        width == self.vars@.len() && self.dict.wf() && numbers_ok(*self.numbers)
    }

    fn test(&self, row: &[u32]) -> (r: bool) {
        match ebv(self.expr, row, self.vars, self.dict, self.numbers) {
            Some(b) => b,
            None => false,
        }
    }
}

proof fn lemma_kept_len(cond: Condition, rows: Seq<Seq<u32>>)
    ensures
        kept_rows(cond, rows).len() <= rows.len(),
    decreases rows.len(),
{
    if rows.len() > 0 {
        lemma_kept_len(cond, rows.drop_last());
    }
}

/// Keeps the rows of a table for which the expression is true.
fn filter_table<F: Fn(NumberCall) -> NumberReply>(
    t: Solutions,
    e: &Expr,
    dict: &Dictionary,
    numbers: &F,
) -> (r: Solutions)
    requires
        t.wf(),
        dict.wf(),
        numbers_ok(*numbers),
    ensures
        r.wf(),
        r@ == filtered(replies(*numbers), dict.keys(), t@, e.view()),
{
    let ghost cond = passes(replies(*numbers), dict.keys(), t@.vars, e.view());
    let ghost rows = t.rows@;
    let mut kept: RowBlock = RowBlock::new(t.rows.n_vars());
    let n: usize = t.rows.n_rows();
    let mut i: usize = 0;
    proof {
        assert(rows.take(0) =~= Seq::<Seq<u32>>::empty());
        assert(kept@ =~= Seq::<Seq<u32>>::empty());
    }
    while i < n
        invariant
            t.wf(),
            dict.wf(),
            numbers_ok(*numbers),
            cond == passes(replies(*numbers), dict.keys(), t@.vars, e.view()),
            rows == t.rows@,
            n == rows.len(),
            i <= n,
            kept.wf(),
            kept.width() == t.rows.width(),
            kept@ == kept_rows(cond, rows.take(i as int)),
        decreases n - i,
    {
        let row: &[u32] = t.rows.row(i);
        proof {
            assert(rows.take(i + 1).drop_last() =~= rows.take(i as int));
            lemma_kept_len(cond, rows.take(i as int));
        }
        let keep: bool = match ebv(e, row, &t.vars, dict, numbers) {
            Some(b) => b,
            None => false,
        };
        assert(keep == cond(row@));
        if keep {
            kept.push_row(row);
        }
        i += 1;
    }
    assert(rows.take(i as int) =~= rows);
    Solutions { vars: t.vars, rows: kept }
}

/// The name of the first construct in an expression that cannot be evaluated.
pub open spec fn unsupported_in(e: ExprView) -> Option<Seq<char>>
    decreases e, 0nat, 0nat,
{
    match e {
        ExprView::Binary(_, a, b) => match unsupported_in(*a) {
            Some(n) => Some(n),
            None => unsupported_in(*b),
        },
        ExprView::Unary(_, a) => unsupported_in(*a),
        ExprView::In(a, list) => match unsupported_in(*a) {
            Some(n) => Some(n),
            None => unsupported_among(list, 0),
        },
        ExprView::If(c, a, b) => match unsupported_in(*c) {
            Some(n) => Some(n),
            None => match unsupported_in(*a) {
                Some(n) => Some(n),
                None => unsupported_in(*b),
            },
        },
        ExprView::Call(_, args) => unsupported_among(args, 0),
        ExprView::Unsupported(n) => Some(n),
        _ => None,
    }
}

/// The same for a list of expressions, from number `i` on.
pub open spec fn unsupported_among(list: Seq<ExprView>, i: int) -> Option<Seq<char>>
    decreases list, 1nat, list.len() - i,
{
    if i < 0 || i >= list.len() {
        None
    } else {
        match unsupported_in(list[i]) {
            Some(n) => Some(n),
            None => unsupported_among(list, i + 1),
        }
    }
}

/// The text of the error for such a construct in the condition of an optional
/// part.
pub open spec fn unsupported_condition_text(name: Seq<char>) -> Seq<char> {
    "Unsupported expression in a FILTER inside OPTIONAL: "@ + name
}

/// The name of the first construct in an expression that cannot be evaluated.
fn find_unsupported(e: &Expr) -> (r: Option<String>)
    ensures
        match r {
            Some(n) => unsupported_in(e.view()) == Some(n@),
            None => unsupported_in(e.view()) is None,
        },
    decreases e, 0nat, 0nat,
{
    match e {
        Expr::Binary(_, a, b) => match find_unsupported(a) {
            Some(n) => Some(n),
            None => find_unsupported(b),
        },
        Expr::Unary(_, a) => find_unsupported(a),
        Expr::In(a, list) => match find_unsupported(a) {
            Some(n) => Some(n),
            None => {
                let r: Option<String> = find_unsupported_among(list);
                assert(e.view()->In_1 =~= exprs_view(list@));
                r
            },
        },
        Expr::If(c, a, b) => match find_unsupported(c) {
            Some(n) => Some(n),
            None => match find_unsupported(a) {
                Some(n) => Some(n),
                None => find_unsupported(b),
            },
        },
        Expr::Call(_, args) => {
            let r: Option<String> = find_unsupported_among(args);
            assert(e.view()->Call_1 =~= exprs_view(args@));
            r
        },
        Expr::Unsupported(n) => Some(n.clone()),
        _ => None,
    }
}

fn find_unsupported_among(list: &Vec<Expr>) -> (r: Option<String>)
    ensures
        match r {
            Some(n) => unsupported_among(exprs_view(list@), 0) == Some(n@),
            None => unsupported_among(exprs_view(list@), 0) is None,
        },
    decreases list, 1nat, 0nat,
{
    let ghost lv = exprs_view(list@);
    let mut i: usize = 0;
    while i < list.len()
        invariant
            lv == exprs_view(list@),
            i <= list@.len(),
            unsupported_among(lv, 0) == unsupported_among(lv, i as int),
        decreases list@.len() - i,
    {
        assert(lv[i as int] == list@[i as int].view());
        assert(decreases_to!(list => list@[i as int]));
        if let Some(n) = find_unsupported(&list[i]) {
            return Some(n);
        }
        i += 1;
    }
    None
}

// --- Patterns --------------------------------------------------------------------------

/// The condition of an optional part.
pub open spec fn join_condition(
    num: Replies,
    keys: Seq<Seq<char>>,
    vars: Seq<Seq<char>>,
    e: Option<ExprView>,
) -> Condition {
    match e {
        Some(x) => passes(num, keys, vars, x),
        None => any_row(),
    }
}

/// The construct that keeps the condition of an optional part from being
/// evaluated.
pub open spec fn condition_problem(e: Option<ExprView>) -> Option<Seq<char>> {
    match e {
        Some(x) => unsupported_in(x),
        None => None,
    }
}

/// What stands for the right part of a join that is not read: a basic graph
/// pattern gives its columns alone where the left part has no row.
pub open spec fn unread(l: Table, keys: Seq<Seq<char>>, b: PatternView) -> Option<Table> {
    match b {
        PatternView::Bgp(ts) => if l.rows.len() == 0 {
            Some(Table { vars: bgp_columns(keys, ts), rows: Seq::empty() })
        } else {
            None
        },
        _ => None,
    }
}

/// What a pattern gives, and the dictionary after that. A limit only reaches a
/// basic graph pattern; the parts of all others are evaluated in full, but for
/// the right part of a join whose left part has no row.
pub open spec fn solved(s: Setting, keys: Seq<Seq<char>>, p: PatternView, limit: Option<usize>) -> (
    Outcome,
    Seq<Seq<char>>,
)
    decreases p,
{
    match p {
        PatternView::Bgp(ts) => (bgp_outcome(s.index, keys, ts, limit, s.cap), keys),
        PatternView::Path(a, path, b) => (path_outcome(s.index, keys, a, path, b, s.cap), keys),
        PatternView::Filter(e, q) => {
            let (r, k) = solved(s, keys, *q, None);
            (
                match r {
                    Ok(t) => Ok(filtered(s.num, k, t, e)),
                    Err(x) => Err(x),
                },
                k,
            )
        },
        PatternView::Join(a, b) => {
            let (ra, ka) = solved(s, keys, *a, None);
            match ra {
                Err(x) => (Err(x), ka),
                Ok(l) => {
                    let (rb, kb) = match unread(l, ka, *b) {
                        Some(r) => (Ok(r), ka),
                        None => solved(s, ka, *b, None),
                    };
                    (
                        match rb {
                            Ok(r) => within(join_tables(l, r, any_row(), false), s.cap),
                            Err(x) => Err(x),
                        },
                        kb,
                    )
                },
            }
        },
        PatternView::LeftJoin(a, b, e) => match condition_problem(e) {
            Some(n) => (Err(unsupported_condition_text(n)), keys),
            None => {
                let (ra, ka) = solved(s, keys, *a, None);
                match ra {
                    Err(x) => (Err(x), ka),
                    Ok(l) => {
                        let (rb, kb) = solved(s, ka, *b, None);
                        (
                            match rb {
                                Ok(r) => {
                                    let cond = join_condition(
                                        s.num,
                                        kb,
                                        join_vars(l.vars, r.vars),
                                        e,
                                    );
                                    within(join_tables(l, r, cond, true), s.cap)
                                },
                                Err(x) => Err(x),
                            },
                            kb,
                        )
                    },
                }
            },
        },
        PatternView::Union(a, b) => {
            let (ra, ka) = solved(s, keys, *a, None);
            match ra {
                Err(x) => (Err(x), ka),
                Ok(l) => {
                    let (rb, kb) = solved(s, ka, *b, None);
                    (
                        match rb {
                            Ok(r) => within(union_tables(l, r), s.cap),
                            Err(x) => Err(x),
                        },
                        kb,
                    )
                },
            }
        },
        PatternView::Extend(q, var, e) => if s.writable {
            let (r, k) = solved(s, keys, *q, None);
            match r {
                Ok(t) => bind_outcome(s.num, k, t, var, e),
                Err(x) => (Err(x), k),
            }
        } else {
            (Err(unsupported_text(false)), keys)
        },
        PatternView::Group(by, aggs, q) => if s.writable {
            let (r, k) = solved(s, keys, *q, None);
            match r {
                Ok(t) => group_outcome(s.num, k, by, aggs, t),
                Err(x) => (Err(x), k),
            }
        } else {
            (Err(unsupported_text(false)), keys)
        },
        PatternView::Project(_, _)
        | PatternView::Distinct(_)
        | PatternView::Reduced(_)
        | PatternView::Slice(_, _, _)
        | PatternView::Order(_, _) => {
            proof {
                lemma_peeled_smaller(p);
            }
            let m = peeled(p);
            let (r, k) = solved(s, keys, m.pattern, pushdown(m));
            (
                match r {
                    Ok(t) => selected(s.num, k, m, t),
                    Err(x) => Err(x),
                },
                k,
            )
        },
        _ => (Err(unsupported_text(s.writable)), keys),
    }
}

/// What a whole query gives, and the dictionary after that.
pub open spec fn answered(s: Setting, keys: Seq<Seq<char>>, p: PatternView) -> (Outcome, Seq<Seq<char>>) {
    let m = peeled(p);
    let (r, k) = solved(s, keys, m.pattern, pushdown(m));
    (
        match r {
            Ok(t) => selected(s.num, k, m, t),
            Err(x) => Err(x),
        },
        k,
    )
}

/// The setting of a store.
pub open spec fn setting_of<F: Fn(NumberCall) -> NumberReply>(
    index: Permutations,
    engine: HybridEngine,
    numbers: F,
    writable: bool,
) -> Setting {
    Setting { index, num: replies(numbers), cap: engine.max_rows, writable }
}

/// Joins two tables, the right one being optional.
fn left_join<F: Fn(NumberCall) -> NumberReply>(
    l: &Solutions,
    r: &Solutions,
    e: &Option<Expr>,
    dict: &Dictionary,
    numbers: &F,
    cap: usize,
) -> (res: Result<Solutions, String>)
    requires
        l.wf(),
        r.wf(),
        dict.wf(),
        numbers_ok(*numbers),
    ensures
        outcome(res) == within(
            join_tables(
                l@,
                r@,
                join_condition(
                    replies(*numbers),
                    dict.keys(),
                    join_vars(l@.vars, r@.vars),
                    opt_expr_view(*e),
                ),
                true,
            ),
            cap,
        ),
        res is Ok ==> (res->Ok_0).wf(),
{
    match e {
        Some(x) => {
            let vars: Vec<String> = join_columns(&l.vars, &r.vars);
            let test: ExprTest<'_, F> = ExprTest { expr: x, vars: &vars, dict, numbers };
            assert(vars@.len() == texts(vars@).len());
            hash_join(l, r, &test, true, cap)
        },
        None => hash_join(l, r, &AnyRow {  }, true, cap),
    }
}

/// The error for the condition of an optional part, if it has one.
fn check_condition(e: &Option<Expr>) -> (r: Option<String>)
    ensures
        match r {
            Some(x) => condition_problem(opt_expr_view(*e)) is Some && x@ == unsupported_condition_text(
                condition_problem(opt_expr_view(*e))->0,
            ),
            None => condition_problem(opt_expr_view(*e)) is None,
        },
{
    match e {
        Some(x) => match find_unsupported(x) {
            Some(n) => {
                let mut text: String = owned("Unsupported expression in a FILTER inside OPTIONAL: ");
                text.push_str(n.as_str());
                assert(text@ =~= unsupported_condition_text(n@));
                Some(text)
            },
            None => None,
        },
        None => None,
    }
}

/// What stands for the right part of a join, where that is not read.
fn skip_right(l: &Solutions, b: &Pattern, dict: &Dictionary) -> (r: Option<Solutions>)
    requires
        l.wf(),
        dict.wf(),
    ensures
        match r {
            Some(t) => t.wf() && unread(l@, dict.keys(), b.view()) == Some(t@),
            None => unread(l@, dict.keys(), b.view()) is None,
        },
{
    match b {
        Pattern::Bgp(ts) => {
            if l.rows.n_rows() > 0 {
                return None;
            }
            let vars: Vec<String> = columns_of_bgp(ts, dict);
            let rows: RowBlock = RowBlock::new(vars.len());
            let t: Solutions = Solutions { vars, rows };
            assert(t@.rows =~= Seq::<Seq<u32>>::empty());
            Some(t)
        },
        _ => None,
    }
}

/// The solutions of a pattern, without a change to the store.
pub fn eval_where<F: Fn(NumberCall) -> NumberReply>(
    gp: &Pattern,
    store: &TripleStore,
    engine: &HybridEngine,
    limit: Option<usize>,
    numbers: &F,
) -> (res: Result<Solutions, String>)
    requires
        store.wf(),
        numbers_ok(*numbers),
    ensures
        (outcome(res), store.dict.keys()) == solved(
            setting_of(store.index, *engine, *numbers, false),
            store.dict.keys(),
            gp.view(),
            limit,
        ),
        res is Ok ==> (res->Ok_0).wf(),
    decreases gp,
{
    let cap: usize = engine.max_rows;
    match gp {
        Pattern::Bgp(ts) => eval_bgp(ts, store, engine, limit),
        Pattern::Path(a, path, b) => eval_path(store, a, path, b, cap),
        Pattern::Filter(e, q) => match eval_where(q, store, engine, None, numbers) {
            Ok(t) => Ok(filter_table(t, e, &store.dict, numbers)),
            Err(x) => Err(x),
        },
        Pattern::Join(a, b) => match eval_where(a, store, engine, None, numbers) {
            Ok(l) => match skip_right(&l, b, &store.dict) {
                Some(r) => hash_join(&l, &r, &AnyRow {  }, false, cap),
                None => match eval_where(b, store, engine, None, numbers) {
                    Ok(r) => hash_join(&l, &r, &AnyRow {  }, false, cap),
                    Err(x) => Err(x),
                },
            },
            Err(x) => Err(x),
        },
        Pattern::LeftJoin(a, b, e) => {
            if let Some(x) = check_condition(e) {
                return Err(x);
            }
            match eval_where(a, store, engine, None, numbers) {
                Ok(l) => match eval_where(b, store, engine, None, numbers) {
                    Ok(r) => left_join(&l, &r, e, &store.dict, numbers, cap),
                    Err(x) => Err(x),
                },
                Err(x) => Err(x),
            }
        },
        Pattern::Union(a, b) => match eval_where(a, store, engine, None, numbers) {
            Ok(l) => match eval_where(b, store, engine, None, numbers) {
                Ok(r) => union_rows(&l, &r, cap),
                Err(x) => Err(x),
            },
            Err(x) => Err(x),
        },
        Pattern::Project(_, _)
        | Pattern::Distinct(_)
        | Pattern::Reduced(_)
        | Pattern::Slice(_, _, _)
        | Pattern::Order(_, _) => {
            let m: Modifiers<'_> = peel_modifiers(gp);
            match eval_where(m.pattern, store, engine, find_limit(&m), numbers) {
                Ok(t) => apply_modifiers(&m, t, &store.dict, numbers),
                Err(x) => Err(x),
            }
        },
        _ => Err(unsupported(false)),
    }
}

/// The solutions of a pattern. Computed values join the dictionary.
pub fn eval_where_mut<F: Fn(NumberCall) -> NumberReply>(
    gp: &Pattern,
    store: &mut TripleStore,
    engine: &HybridEngine,
    limit: Option<usize>,
    numbers: &F,
) -> (res: Result<Solutions, String>)
    requires
        old(store).wf(),
        numbers_ok(*numbers),
    ensures
        final(store).wf(),
        final(store).index == old(store).index,
        (outcome(res), final(store).dict.keys()) == solved(
            setting_of(old(store).index, *engine, *numbers, true),
            old(store).dict.keys(),
            gp.view(),
            limit,
        ),
        res is Ok ==> (res->Ok_0).wf(),
    decreases gp,
{
    let cap: usize = engine.max_rows;
    match gp {
        Pattern::Bgp(ts) => eval_bgp(ts, store, engine, limit),
        Pattern::Path(a, path, b) => eval_path(store, a, path, b, cap),
        Pattern::Filter(e, q) => match eval_where_mut(q, store, engine, None, numbers) {
            Ok(t) => Ok(filter_table(t, e, &store.dict, numbers)),
            Err(x) => Err(x),
        },
        Pattern::Join(a, b) => match eval_where_mut(a, store, engine, None, numbers) {
            Ok(l) => match skip_right(&l, b, &store.dict) {
                Some(r) => hash_join(&l, &r, &AnyRow {  }, false, cap),
                None => match eval_where_mut(b, store, engine, None, numbers) {
                    Ok(r) => hash_join(&l, &r, &AnyRow {  }, false, cap),
                    Err(x) => Err(x),
                },
            },
            Err(x) => Err(x),
        },
        Pattern::LeftJoin(a, b, e) => {
            if let Some(x) = check_condition(e) {
                return Err(x);
            }
            match eval_where_mut(a, store, engine, None, numbers) {
                Ok(l) => match eval_where_mut(b, store, engine, None, numbers) {
                    Ok(r) => left_join(&l, &r, e, &store.dict, numbers, cap),
                    Err(x) => Err(x),
                },
                Err(x) => Err(x),
            }
        },
        Pattern::Union(a, b) => match eval_where_mut(a, store, engine, None, numbers) {
            Ok(l) => match eval_where_mut(b, store, engine, None, numbers) {
                Ok(r) => union_rows(&l, &r, cap),
                Err(x) => Err(x),
            },
            Err(x) => Err(x),
        },
        Pattern::Extend(q, var, e) => match eval_where_mut(q, store, engine, None, numbers) {
            Ok(t) => bind_column(&t, var.as_str(), e, &mut store.dict, numbers),
            Err(x) => Err(x),
        },
        Pattern::Group(by, aggs, q) => match eval_where_mut(q, store, engine, None, numbers) {
            Ok(t) => group_table(&t, by, aggs, &mut store.dict, numbers),
            Err(x) => Err(x),
        },
        Pattern::Project(_, _)
        | Pattern::Distinct(_)
        | Pattern::Reduced(_)
        | Pattern::Slice(_, _, _)
        | Pattern::Order(_, _) => {
            let m: Modifiers<'_> = peel_modifiers(gp);
            match eval_where_mut(m.pattern, store, engine, find_limit(&m), numbers) {
                Ok(t) => apply_modifiers(&m, t, &store.dict, numbers),
                Err(x) => Err(x),
            }
        },
        _ => Err(unsupported(true)),
    }
}

/// The solutions of a whole query, without a change to the store.
pub fn evaluate_select<F: Fn(NumberCall) -> NumberReply>(
    pattern: &Pattern,
    store: &TripleStore,
    engine: &HybridEngine,
    numbers: &F,
) -> (res: Result<Solutions, String>)
    requires
        store.wf(),
        numbers_ok(*numbers),
    ensures
        (outcome(res), store.dict.keys()) == answered(
            setting_of(store.index, *engine, *numbers, false),
            store.dict.keys(),
            pattern.view(),
        ),
        res is Ok ==> (res->Ok_0).wf(),
{
    let m: Modifiers<'_> = peel_modifiers(pattern);
    match eval_where(m.pattern, store, engine, find_limit(&m), numbers) {
        Ok(t) => apply_modifiers(&m, t, &store.dict, numbers),
        Err(x) => Err(x),
    }
}

/// The solutions of a whole query. Computed values join the dictionary.
pub fn evaluate_select_mut<F: Fn(NumberCall) -> NumberReply>(
    pattern: &Pattern,
    store: &mut TripleStore,
    engine: &HybridEngine,
    numbers: &F,
) -> (res: Result<Solutions, String>)
    requires
        old(store).wf(),
        numbers_ok(*numbers),
    ensures
        final(store).wf(),
        final(store).index == old(store).index,
        (outcome(res), final(store).dict.keys()) == answered(
            setting_of(old(store).index, *engine, *numbers, true),
            old(store).dict.keys(),
            pattern.view(),
        ),
        res is Ok ==> (res->Ok_0).wf(),
{
    let m: Modifiers<'_> = peel_modifiers(pattern);
    match eval_where_mut(m.pattern, store, engine, find_limit(&m), numbers) {
        Ok(t) => apply_modifiers(&m, t, &store.dict, numbers),
        Err(x) => Err(x),
    }
}

} // verus!
