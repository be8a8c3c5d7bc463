//! What the two ways of executing a pattern have in common: both give exactly
//! the solutions of the pattern, each once.

use crate::hypertrie::csr::{pairs_in_order, triples_in_order, IdTriple};
use crate::hypertrie::executor::{
    allows, asked, blank_row, candidates, compiled, extend, kept, lemma_compiled_term, lemma_kept,
    loops, pair_fits, plan_from, plan_over, plan_rows, planned, put, restricted, slice_for,
    step_fits, triple_fits, wcoj_applicable, wcoj_from, wcoj_over, wcoj_rows, Slot, Step, UNBOUND,
};
use crate::hypertrie::permutations::{
    objects, objects_having, os_pairs, po_pairs, predicates, sp_pairs, subjects, subjects_having,
    Term,
};
use crate::hypertrie::planner::{pattern_vars, triple_vars, PatTerm, PatTriple};
use crate::sorted::in_order;
use vstd::prelude::*;

verus! {

/// The value of a position under a row.
pub open spec fn slot_value(slot: Slot, row: Seq<u32>) -> u32 {
    match slot {
        Slot::Id(id) => id,
        Slot::Col(c) => row[c as int],
    }
}

/// The triple that a row makes of a pattern.
pub open spec fn triple_under(step: Step, row: Seq<u32>) -> IdTriple {
    (slot_value(step.s, row), slot_value(step.p, row), slot_value(step.o, row))
}

/// The rows that make stored triples of all patterns and leave nothing unbound.
pub open spec fn solution(set: Set<IdTriple>, ps: Seq<PatTriple>, row: Seq<u32>) -> bool {
    &&& row.len() == pattern_vars(ps).len()
    &&& forall|c: int| 0 <= c < row.len() ==> #[trigger] row[c] != UNBOUND
    &&& forall|i: int|
        0 <= i < ps.len() ==> set.contains(triple_under(#[trigger] compiled(ps)[i], row))
}

/// No stored triple uses the identifier that means "unbound".
pub open spec fn clean(set: Set<IdTriple>) -> bool {
    &&& set.finite()
    &&& forall|t: IdTriple| #[trigger]
        set.contains(t) ==> t.0 != UNBOUND && t.1 != UNBOUND && t.2 != UNBOUND
}

spec fn is_col(slot: Slot, c: int) -> bool {
    match slot {
        Slot::Id(_) => false,
        Slot::Col(k) => k == c,
    }
}

spec fn has_col(step: Step, c: int) -> bool {
    is_col(step.s, c) || is_col(step.p, c) || is_col(step.o, c)
}

/// `r` continues `row` by one pattern.
spec fn continues(set: Set<IdTriple>, step: Step, row: Seq<u32>, r: Seq<u32>) -> bool {
    &&& r.len() == row.len()
    &&& keeps(row, r)
    &&& forall|c: int| 0 <= c < r.len() && !has_col(step, c) ==> #[trigger] r[c] == row[c]
    &&& set.contains(triple_under(step, r))
}

/// What is bound in `row` has the same value in `r`.
spec fn keeps(row: Seq<u32>, r: Seq<u32>) -> bool {
    forall|c: int| 0 <= c < row.len() && row[c] != UNBOUND ==> #[trigger] r[c] == row[c]
}

proof fn lemma_mapped<A>(vals: Seq<A>, f: spec_fn(A) -> Seq<u32>, r: Seq<u32>)
    ensures
        vals.map_values(f).contains(r) <==> exists|x: A| #[trigger] vals.contains(x) && f(x) == r,
{
    let m = vals.map_values(f);
    if m.contains(r) {
        let i = choose|i: int| 0 <= i < m.len() && m[i] == r;
        assert(vals.contains(vals[i]));
    }
    if exists|x: A| #[trigger] vals.contains(x) && f(x) == r {
        let x = choose|x: A| #[trigger] vals.contains(x) && f(x) == r;
        let i = choose|i: int| 0 <= i < vals.len() && vals[i] == x;
        assert(m[i] == r);
    }
}

proof fn lemma_finite_parts(set: Set<IdTriple>, a: u32, b: u32)
    requires
        set.finite(),
    ensures
        objects(set, a, b).finite(),
        subjects(set, a, b).finite(),
        predicates(set, a, b).finite(),
        subjects_having(set, a).finite(),
        objects_having(set, a).finite(),
        po_pairs(set, a).finite(),
        os_pairs(set, a).finite(),
        sp_pairs(set, a).finite(),
{
    let f0 = |t: IdTriple| t.0;
    let f1 = |t: IdTriple| t.1;
    let f2 = |t: IdTriple| t.2;
    let g0 = |t: IdTriple| (t.1, t.2);
    let g1 = |t: IdTriple| (t.2, t.0);
    let g2 = |t: IdTriple| (t.0, t.1);
    set.lemma_map_finite(f0);
    set.lemma_map_finite(f1);
    set.lemma_map_finite(f2);
    set.lemma_map_finite(g0);
    set.lemma_map_finite(g1);
    set.lemma_map_finite(g2);
    assert forall|x: u32| objects(set, a, b).contains(x) implies set.map(f2).contains(x) by {
        assert(f2((a, b, x)) == x);
    }
    assert forall|x: u32| subjects(set, a, b).contains(x) implies set.map(f0).contains(x) by {
        assert(f0((x, a, b)) == x);
    }
    assert forall|x: u32| predicates(set, a, b).contains(x) implies set.map(f1).contains(x) by {
        assert(f1((a, x, b)) == x);
    }
    assert forall|x: u32| subjects_having(set, a).contains(x) implies set.map(f0).contains(x) by {
        let o = choose|o: u32| set.contains((x, a, o));
        assert(f0((x, a, o)) == x);
    }
    assert forall|x: u32| objects_having(set, a).contains(x) implies set.map(f2).contains(x) by {
        let s = choose|s: u32| set.contains((s, a, x));
        assert(f2((s, a, x)) == x);
    }
    assert forall|q: (u32, u32)| po_pairs(set, a).contains(q) implies set.map(g0).contains(q) by {
        assert(g0((a, q.0, q.1)) == q);
    }
    assert forall|q: (u32, u32)| os_pairs(set, a).contains(q) implies set.map(g1).contains(q) by {
        assert(g1((q.1, a, q.0)) == q);
    }
    assert forall|q: (u32, u32)| sp_pairs(set, a).contains(q) implies set.map(g2).contains(q) by {
        assert(g2((q.0, q.1, a)) == q);
    }
    vstd::set_lib::lemma_set_subset_finite(set.map(f2), objects(set, a, b));
    vstd::set_lib::lemma_set_subset_finite(set.map(f0), subjects(set, a, b));
    vstd::set_lib::lemma_set_subset_finite(set.map(f1), predicates(set, a, b));
    vstd::set_lib::lemma_set_subset_finite(set.map(f0), subjects_having(set, a));
    vstd::set_lib::lemma_set_subset_finite(set.map(f2), objects_having(set, a));
    vstd::set_lib::lemma_set_subset_finite(set.map(g0), po_pairs(set, a));
    vstd::set_lib::lemma_set_subset_finite(set.map(g1), os_pairs(set, a));
    vstd::set_lib::lemma_set_subset_finite(set.map(g2), sp_pairs(set, a));
}

/// One wildcard: the values of column `c` are those in `vals`.
proof fn lemma_one_open(
    set: Set<IdTriple>,
    step: Step,
    row: Seq<u32>,
    r: Seq<u32>,
    slot: Slot,
    vals: Set<u32>,
)
    requires
        vals.finite(),
        slot matches Slot::Col(c) && c < row.len(),
        has_col(step, (slot->Col_0) as int),
        forall|x: u32| #[trigger]
            vals.contains(x) <==> set.contains(triple_under(step, put(row, slot, x))),
        row[(slot->Col_0) as int] == UNBOUND,
        forall|c: int| 0 <= c < row.len() && has_col(step, c) && c != slot->Col_0 ==> #[trigger] row[c] != UNBOUND,
    ensures
        ({
            let list = in_order(vals).map_values(|x: u32| put(row, slot, x));
            (list.contains(r) <==> continues(set, step, row, r)) && list.no_duplicates()
        }),
{
    let c = (slot->Col_0) as int;
    let f = |x: u32| put(row, slot, x);
    let list = in_order(vals).map_values(f);
    crate::sorted::lemma_in_order_of(vals);
    let s = in_order(vals);
    lemma_mapped(s, f, r);
    assert forall|x: u32| s.contains(x) <==> vals.contains(x) by {
        assert(crate::sorted::members(s).contains(x) <==> vals.contains(x));
    }
    if list.contains(r) {
        let x = choose|x: u32| #[trigger] s.contains(x) && f(x) == r;
        assert(vals.contains(x));
        assert(continues(set, step, row, r));
    }
    if continues(set, step, row, r) {
        let x = r[c];
        assert(f(x) =~= r);
        assert(vals.contains(x));
        assert(s.contains(x));
    }
    assert forall|i: int, j: int| 0 <= i < list.len() && 0 <= j < list.len() && i != j implies list[i]
        != list[j] by {
        assert(list[i][c] == s[i]);
        assert(list[j][c] == s[j]);
    }
    assert(list =~= in_order(vals).map_values(|x: u32| put(row, slot, x)));
}

/// Two wildcards. Where both stand at one column, the pairs of equal values count.
proof fn lemma_two_open(
    set: Set<IdTriple>,
    step: Step,
    row: Seq<u32>,
    r: Seq<u32>,
    a: Slot,
    b: Slot,
    vals: Set<(u32, u32)>,
)
    requires
        vals.finite(),
        a matches Slot::Col(c) && c < row.len(),
        b matches Slot::Col(c) && c < row.len(),
        has_col(step, (a->Col_0) as int),
        has_col(step, (b->Col_0) as int),
        forall|q: (u32, u32)|
            pair_fits(a, b, q) ==> (#[trigger] vals.contains(q) <==> set.contains(
                triple_under(step, put(put(row, a, q.0), b, q.1)),
            )),
        row[(a->Col_0) as int] == UNBOUND,
        row[(b->Col_0) as int] == UNBOUND,
        forall|c: int|
            0 <= c < row.len() && has_col(step, c) && c != a->Col_0 && c != b->Col_0
                ==> #[trigger] row[c] != UNBOUND,
    ensures
        ({
            let list = kept(pairs_in_order(vals), |q: (u32, u32)| pair_fits(a, b, q)).map_values(
                |q: (u32, u32)| put(put(row, a, q.0), b, q.1),
            );
            (list.contains(r) <==> continues(set, step, row, r)) && list.no_duplicates()
        }),
{
    let ca = (a->Col_0) as int;
    let cb = (b->Col_0) as int;
    let f = |q: (u32, u32)| put(put(row, a, q.0), b, q.1);
    let keep = |q: (u32, u32)| pair_fits(a, b, q);
    let s = pairs_in_order(vals);
    let fit = kept(s, keep);
    let list = fit.map_values(f);
    crate::hypertrie::csr::lemma_pairs_in_order_of(vals);
    lemma_kept(s, keep);
    lemma_mapped(fit, f, r);
    assert forall|q: (u32, u32)| s.contains(q) <==> vals.contains(q) by {
        assert(crate::hypertrie::csr::pair_set(s).contains(q) <==> vals.contains(q));
    }
    if list.contains(r) {
        let q = choose|q: (u32, u32)| #[trigger] fit.contains(q) && f(q) == r;
        assert(s.contains(q) && keep(q));
        assert(vals.contains(q));
        assert(continues(set, step, row, r));
    }
    if continues(set, step, row, r) {
        let q = (r[ca], r[cb]);
        assert(f(q) =~= r);
        assert(keep(q));
        assert(vals.contains(q));
        assert(s.contains(q));
        assert(fit.contains(q));
    }
    assert forall|i: int, j: int| 0 <= i < list.len() && 0 <= j < list.len() && i != j implies list[i]
        != list[j] by {
        assert(fit.contains(fit[i]) && fit.contains(fit[j]));
        assert(keep(fit[i]) && keep(fit[j]));
        assert(list[i][ca] == fit[i].0 && list[i][cb] == fit[i].1);
        assert(list[j][ca] == fit[j].0 && list[j][cb] == fit[j].1);
    }
}

/// Three wildcards.
proof fn lemma_all_open(set: Set<IdTriple>, step: Step, row: Seq<u32>, r: Seq<u32>)
    requires
        set.finite(),
        step_fits(step, row.len()),
        step.s is Col && step.p is Col && step.o is Col,
        row[(step.s->Col_0) as int] == UNBOUND,
        row[(step.p->Col_0) as int] == UNBOUND,
        row[(step.o->Col_0) as int] == UNBOUND,
    ensures
        ({
            let list = kept(triples_in_order(set), |t: IdTriple| triple_fits(step, t)).map_values(
                |t: IdTriple| put(put(put(row, step.s, t.0), step.p, t.1), step.o, t.2),
            );
            (list.contains(r) <==> continues(set, step, row, r)) && list.no_duplicates()
        }),
{
    let cs = (step.s->Col_0) as int;
    let cp = (step.p->Col_0) as int;
    let co = (step.o->Col_0) as int;
    let f = |t: IdTriple| put(put(put(row, step.s, t.0), step.p, t.1), step.o, t.2);
    let keep = |t: IdTriple| triple_fits(step, t);
    let s = triples_in_order(set);
    let fit = kept(s, keep);
    let list = fit.map_values(f);
    crate::hypertrie::csr::lemma_triples_in_order_of(set);
    lemma_kept(s, keep);
    lemma_mapped(fit, f, r);
    assert forall|t: IdTriple| s.contains(t) <==> set.contains(t) by {
        assert(crate::hypertrie::csr::triple_set(s).contains(t) <==> set.contains(t));
    }
    if list.contains(r) {
        let t = choose|t: IdTriple| #[trigger] fit.contains(t) && f(t) == r;
        assert(s.contains(t) && keep(t));
        assert(set.contains(t));
        assert(triple_under(step, r) == t);
        assert(continues(set, step, row, r));
    }
    if continues(set, step, row, r) {
        let t = (r[cs], r[cp], r[co]);
        assert(triple_under(step, r) == t);
        assert(f(t) =~= r);
        assert(keep(t));
        assert(s.contains(t));
        assert(fit.contains(t));
    }
    assert forall|i: int, j: int| 0 <= i < list.len() && 0 <= j < list.len() && i != j implies list[i]
        != list[j] by {
        assert(fit.contains(fit[i]) && fit.contains(fit[j]));
        assert(keep(fit[i]) && keep(fit[j]));
        assert(list[i][cs] == fit[i].0 && list[i][cp] == fit[i].1 && list[i][co] == fit[i].2);
        assert(list[j][cs] == fit[j].0 && list[j][cp] == fit[j].1 && list[j][co] == fit[j].2);
    }
}

/// Extending a row by a pattern gives exactly the rows that continue it, each
/// once.
proof fn lemma_extend(set: Set<IdTriple>, step: Step, row: Seq<u32>, r: Seq<u32>)
    requires
        clean(set),
        step_fits(step, row.len()),
    ensures
        extend(set, step, row).contains(r) <==> continues(set, step, row, r),
        extend(set, step, row).no_duplicates(),
{
    let s = asked(row, step.s);
    let p = asked(row, step.p);
    let o = asked(row, step.o);
    match (s, p, o) {
        (Term::Bound(sv), Term::Bound(pv), Term::Bound(ov)) => {
            if set.contains((sv, pv, ov)) {
                assert(seq![row][0] == row);
            }
            if continues(set, step, row, r) {
                assert(r =~= row);
            }
            assert(triple_under(step, row) == (sv, pv, ov));
        },
        (Term::Bound(sv), Term::Bound(pv), Term::Wildcard) => {
            lemma_finite_parts(set, sv, pv);
            assert forall|x: u32| #[trigger] objects(set, sv, pv).contains(x) <==> set.contains(
                triple_under(step, put(row, step.o, x)),
            ) by {
                assert(triple_under(step, put(row, step.o, x)) == (sv, pv, x));
            }
            lemma_one_open(set, step, row, r, step.o, objects(set, sv, pv));
        },
        (Term::Wildcard, Term::Bound(pv), Term::Bound(ov)) => {
            lemma_finite_parts(set, pv, ov);
            assert forall|x: u32| #[trigger] subjects(set, pv, ov).contains(x) <==> set.contains(
                triple_under(step, put(row, step.s, x)),
            ) by {
                assert(triple_under(step, put(row, step.s, x)) == (x, pv, ov));
            }
            lemma_one_open(set, step, row, r, step.s, subjects(set, pv, ov));
        },
        (Term::Bound(sv), Term::Wildcard, Term::Bound(ov)) => {
            lemma_finite_parts(set, sv, ov);
            assert forall|x: u32| #[trigger] predicates(set, sv, ov).contains(x) <==> set.contains(
                triple_under(step, put(row, step.p, x)),
            ) by {
                assert(triple_under(step, put(row, step.p, x)) == (sv, x, ov));
            }
            lemma_one_open(set, step, row, r, step.p, predicates(set, sv, ov));
        },
        (Term::Bound(sv), Term::Wildcard, Term::Wildcard) => {
            lemma_finite_parts(set, sv, 0);
            assert forall|q: (u32, u32)| pair_fits(step.p, step.o, q) implies (#[trigger] po_pairs(set, sv).contains(q)
                <==> set.contains(triple_under(step, put(put(row, step.p, q.0), step.o, q.1)))) by {
                assert(triple_under(step, put(put(row, step.p, q.0), step.o, q.1)) == (sv, q.0, q.1));
            }
            lemma_two_open(set, step, row, r, step.p, step.o, po_pairs(set, sv));
        },
        (Term::Wildcard, Term::Bound(pv), Term::Wildcard) => {
            lemma_finite_parts(set, pv, 0);
            assert forall|q: (u32, u32)| pair_fits(step.o, step.s, q) implies (#[trigger] os_pairs(set, pv).contains(q)
                <==> set.contains(triple_under(step, put(put(row, step.o, q.0), step.s, q.1)))) by {
                assert(triple_under(step, put(put(row, step.o, q.0), step.s, q.1)) == (q.1, pv, q.0));
            }
            lemma_two_open(set, step, row, r, step.o, step.s, os_pairs(set, pv));
        },
        (Term::Wildcard, Term::Wildcard, Term::Bound(ov)) => {
            lemma_finite_parts(set, ov, 0);
            assert forall|q: (u32, u32)| pair_fits(step.s, step.p, q) implies (#[trigger] sp_pairs(set, ov).contains(q)
                <==> set.contains(triple_under(step, put(put(row, step.s, q.0), step.p, q.1)))) by {
                assert(triple_under(step, put(put(row, step.s, q.0), step.p, q.1)) == (q.0, q.1, ov));
            }
            lemma_two_open(set, step, row, r, step.s, step.p, sp_pairs(set, ov));
        },
        (Term::Wildcard, Term::Wildcard, Term::Wildcard) => {
            lemma_all_open(set, step, row, r);
        },
    }
}

// --- Plans -----------------------------------------------------------------------

spec fn later_col(steps: Seq<Step>, k: int, c: int) -> bool {
    exists|i: int| k <= i < steps.len() && has_col(#[trigger] steps[i], c)
}

/// `r` continues `row` by all steps from `k` on.
spec fn completes(set: Set<IdTriple>, steps: Seq<Step>, row: Seq<u32>, k: int, r: Seq<u32>) -> bool {
    &&& r.len() == row.len()
    &&& keeps(row, r)
    &&& forall|c: int| 0 <= c < r.len() && !later_col(steps, k, c) ==> #[trigger] r[c] == row[c]
    &&& forall|i: int| k <= i < steps.len() ==> set.contains(triple_under(#[trigger] steps[i], r))
}

spec fn steps_ok(steps: Seq<Step>, width: nat) -> bool {
    forall|i: int| 0 <= i < steps.len() ==> step_fits(#[trigger] steps[i], width)
}

proof fn lemma_over(set: Set<IdTriple>, steps: Seq<Step>, rows: Seq<Seq<u32>>, k: int, r: Seq<u32>)
    ensures
        plan_over(set, steps, rows, k).contains(r) <==> exists|j: int|
            0 <= j < rows.len() && (#[trigger] plan_from(set, steps, rows[j], k)).contains(r),
    decreases rows.len(),
{
    if rows.len() > 0 {
        let rest = rows.drop_last();
        lemma_over(set, steps, rest, k, r);
        let a = plan_over(set, steps, rest, k);
        let b = plan_from(set, steps, rows.last(), k);
        lemma_joined_contains(a, b, r);
        assert(rows[rows.len() - 1] == rows.last());
        if exists|j: int| 0 <= j < rows.len() && (#[trigger] plan_from(set, steps, rows[j], k)).contains(r) {
            let j = choose|j: int|
                0 <= j < rows.len() && (#[trigger] plan_from(set, steps, rows[j], k)).contains(r);
            if j < rest.len() {
                assert(rest[j] == rows[j]);
                assert(plan_from(set, steps, rest[j], k).contains(r));
            }
        }
        if exists|j: int| 0 <= j < rest.len() && (#[trigger] plan_from(set, steps, rest[j], k)).contains(r) {
            let j = choose|j: int|
                0 <= j < rest.len() && (#[trigger] plan_from(set, steps, rest[j], k)).contains(r);
            assert(rest[j] == rows[j]);
            assert(plan_from(set, steps, rows[j], k).contains(r));
        }
        if b.contains(r) {
            assert(plan_from(set, steps, rows[rows.len() - 1], k).contains(r));
        }
    }
}

proof fn lemma_joined_contains(a: Seq<Seq<u32>>, b: Seq<Seq<u32>>, r: Seq<u32>)
    ensures
        (a + b).contains(r) <==> a.contains(r) || b.contains(r),
{
    let c = a + b;
    if a.contains(r) {
        let i = choose|i: int| 0 <= i < a.len() && a[i] == r;
        assert(c[i] == r);
    }
    if b.contains(r) {
        let i = choose|i: int| 0 <= i < b.len() && b[i] == r;
        assert(c[a.len() + i] == r);
    }
    if c.contains(r) {
        let i = choose|i: int| 0 <= i < c.len() && c[i] == r;
        if i < a.len() {
            assert(a[i] == r);
        } else {
            assert(b[i - a.len()] == r);
        }
    }
}

/// The row after step `k` on the way from `row` to `r`.
spec fn midway(step: Step, row: Seq<u32>, r: Seq<u32>) -> Seq<u32> {
    Seq::new(row.len(), |c: int| if has_col(step, c) { r[c] } else { row[c] })
}

proof fn lemma_midway(set: Set<IdTriple>, steps: Seq<Step>, row: Seq<u32>, k: int, r: Seq<u32>)
    requires
        clean(set),
        steps_ok(steps, row.len()),
        row.len() <= usize::MAX,
        0 <= k < steps.len(),
    ensures
        completes(set, steps, row, k, r) ==> continues(set, steps[k], row, midway(steps[k], row, r))
            && completes(set, steps, midway(steps[k], row, r), k + 1, r),
        forall|m: Seq<u32>| #[trigger] continues(set, steps[k], row, m) && completes(set, steps, m, k + 1, r)
            ==> completes(set, steps, row, k, r) && m == midway(steps[k], row, r),
{
    let step = steps[k];
    let mid = midway(step, row, r);
    if completes(set, steps, row, k, r) {
        assert(triple_under(step, mid) == triple_under(step, r));
        assert(set.contains(triple_under(steps[k], r)));
        assert(continues(set, step, row, mid));
        assert forall|c: int| 0 <= c < r.len() && !later_col(steps, k + 1, c) implies #[trigger] r[c]
            == mid[c] by {
            if !has_col(step, c) {
                assert(!later_col(steps, k, c)) by {
                    if later_col(steps, k, c) {
                        let i = choose|i: int| k <= i < steps.len() && has_col(#[trigger] steps[i], c);
                        assert(i != k);
                        assert(later_col(steps, k + 1, c));
                    }
                }
            }
        }
        assert(completes(set, steps, mid, k + 1, r));
    }
    assert forall|m: Seq<u32>| #[trigger] continues(set, step, row, m) && completes(set, steps, m, k + 1, r) implies
        completes(set, steps, row, k, r) && m == mid by {
        // The columns of the step are bound in `m`, so `r` keeps them.
        let t = triple_under(step, m);
        assert(t.0 != UNBOUND && t.1 != UNBOUND && t.2 != UNBOUND);
        assert forall|c: int| 0 <= c < m.len() && has_col(step, c) implies m[c] == r[c] by {
            assert(m[c] != UNBOUND);
            assert(r[c] == m[c]);
        }
        assert(triple_under(step, r) == t);
        assert(m =~= mid);
        assert forall|c: int| 0 <= c < row.len() && row[c] != UNBOUND implies #[trigger] r[c] == row[c] by {
            assert(m[c] == row[c]);
            assert(r[c] == m[c]);
        }
        assert forall|c: int| 0 <= c < r.len() && !later_col(steps, k, c) implies #[trigger] r[c]
            == row[c] by {
            assert(!has_col(step, c)) by {
                if has_col(steps[k], c) {
                    assert(later_col(steps, k, c));
                }
            }
            assert(!later_col(steps, k + 1, c)) by {
                if later_col(steps, k + 1, c) {
                    let i = choose|i: int| k + 1 <= i < steps.len() && has_col(#[trigger] steps[i], c);
                    assert(later_col(steps, k, c));
                }
            }
            assert(r[c] == m[c]);
            assert(m[c] == row[c]);
        }
    }
}

/// A plan gives exactly the rows that complete the given one, each once.
proof fn lemma_plan(set: Set<IdTriple>, steps: Seq<Step>, row: Seq<u32>, k: int)
    requires
        clean(set),
        steps_ok(steps, row.len()),
        row.len() <= usize::MAX,
        0 <= k <= steps.len(),
    ensures
        forall|r: Seq<u32>| #[trigger]
            plan_from(set, steps, row, k).contains(r) <==> completes(set, steps, row, k, r),
        plan_from(set, steps, row, k).no_duplicates(),
    decreases steps.len() - k,
{
    let all = plan_from(set, steps, row, k);
    if k == steps.len() {
        assert forall|r: Seq<u32>| #[trigger] all.contains(r) <==> completes(set, steps, row, k, r) by {
            assert(all[0] == row);
            if completes(set, steps, row, k, r) {
                assert(r =~= row);
            }
        }
    } else {
        let next = extend(set, steps[k], row);
        assert(step_fits(steps[k], row.len()));
        lemma_extend(set, steps[k], row, row);
        assert forall|j: int| 0 <= j < next.len() implies continues(set, steps[k], row, #[trigger] next[j]) by {
            lemma_extend(set, steps[k], row, next[j]);
            assert(next.contains(next[j]));
        }
        assert forall|r: Seq<u32>| #[trigger] all.contains(r) <==> completes(set, steps, row, k, r) by {
            lemma_over(set, steps, next, k + 1, r);
            lemma_midway(set, steps, row, k, r);
            if all.contains(r) {
                let j = choose|j: int|
                    0 <= j < next.len() && (#[trigger] plan_from(set, steps, next[j], k + 1)).contains(r);
                assert(continues(set, steps[k], row, next[j]));
                lemma_plan(set, steps, next[j], k + 1);
                assert(completes(set, steps, next[j], k + 1, r));
            }
            if completes(set, steps, row, k, r) {
                let mid = midway(steps[k], row, r);
                lemma_extend(set, steps[k], row, mid);
                let j = choose|j: int| 0 <= j < next.len() && next[j] == mid;
                lemma_plan(set, steps, mid, k + 1);
                assert(plan_from(set, steps, next[j], k + 1).contains(r));
            }
        }
        lemma_over_once(set, steps, row, next, k);
    }
}

proof fn lemma_over_once(set: Set<IdTriple>, steps: Seq<Step>, row: Seq<u32>, rows: Seq<Seq<u32>>, k: int)
    requires
        clean(set),
        steps_ok(steps, row.len()),
        row.len() <= usize::MAX,
        0 <= k < steps.len(),
        rows.no_duplicates(),
        forall|j: int| 0 <= j < rows.len() ==> continues(set, steps[k], row, #[trigger] rows[j]),
    ensures
        plan_over(set, steps, rows, k + 1).no_duplicates(),
    decreases steps.len() - k, 0nat, rows.len(),
{
    if rows.len() > 0 {
        let rest = rows.drop_last();
        assert forall|j: int| 0 <= j < rest.len() implies continues(set, steps[k], row, #[trigger] rest[j]) by {
            assert(rest[j] == rows[j]);
        }
        lemma_over_once(set, steps, row, rest, k);
        let last = rows.last();
        assert(rows[rows.len() - 1] == last);
        lemma_plan(set, steps, last, k + 1);
        let a = plan_over(set, steps, rest, k + 1);
        let b = plan_from(set, steps, last, k + 1);
        assert forall|i: int, j: int| 0 <= i < a.len() && 0 <= j < b.len() implies a[i] != b[j] by {
            if a[i] == b[j] {
                let r = a[i];
                assert(a.contains(r));
                assert(b.contains(r));
                lemma_over(set, steps, rest, k + 1, r);
                let q = choose|q: int|
                    0 <= q < rest.len() && (#[trigger] plan_from(set, steps, rest[q], k + 1)).contains(r);
                lemma_plan(set, steps, rest[q], k + 1);
                lemma_midway(set, steps, row, k, r);
                assert(rest[q] == rows[q]);
                assert(continues(set, steps[k], row, rest[q]));
                assert(continues(set, steps[k], row, last));
                assert(rest[q] == last);
            }
        }
        lemma_disjoint_join(a, b);
    }
}

proof fn lemma_disjoint_join(a: Seq<Seq<u32>>, b: Seq<Seq<u32>>)
    requires
        a.no_duplicates(),
        b.no_duplicates(),
        forall|i: int, j: int| 0 <= i < a.len() && 0 <= j < b.len() ==> a[i] != b[j],
    ensures
        (a + b).no_duplicates(),
{
    let c = a + b;
    assert forall|i: int, j: int| 0 <= i < c.len() && 0 <= j < c.len() && i != j implies c[i] != c[j] by {
        if i < a.len() && j < a.len() {
            assert(c[i] == a[i] && c[j] == a[j]);
        } else if i >= a.len() && j >= a.len() {
            assert(c[i] == b[i - a.len()] && c[j] == b[j - a.len()]);
        } else if i < a.len() {
            assert(c[i] == a[i] && c[j] == b[j - a.len()]);
        } else {
            assert(c[j] == a[j] && c[i] == b[i - a.len()]);
        }
    }
}

/// The steps of a pattern use its columns.
proof fn lemma_compiled_ok(ps: Seq<PatTriple>)
    requires
        pattern_vars(ps).len() <= usize::MAX,
    ensures
        steps_ok(compiled(ps), pattern_vars(ps).len()),
{
    let vars = pattern_vars(ps);
    assert forall|i: int| 0 <= i < compiled(ps).len() implies step_fits(
        #[trigger] compiled(ps)[i],
        vars.len(),
    ) by {
        lemma_compiled_term(ps, i, ps[i].subject);
        lemma_compiled_term(ps, i, ps[i].predicate);
        lemma_compiled_term(ps, i, ps[i].object);
    }
}

/// Every column belongs to a pattern.
proof fn lemma_col_used(ps: Seq<PatTriple>, c: int) -> (i: int)
    requires
        pattern_vars(ps).len() <= usize::MAX,
        0 <= c < pattern_vars(ps).len(),
    ensures
        0 <= i < ps.len(),
        has_col(compiled(ps)[i], c),
{
    let vars = pattern_vars(ps);
    crate::hypertrie::planner::law_pattern_vars(ps);
    assert(vars.contains(vars[c]));
    let i = choose|i: int| 0 <= i < ps.len() && triple_vars(#[trigger] ps[i]).contains(vars[c]);
    let tv = triple_vars(ps[i]);
    let k = choose|k: int| 0 <= k < tv.len() && tv[k] == vars[c];
    lemma_compiled_term(ps, i, ps[i].subject);
    lemma_compiled_term(ps, i, ps[i].predicate);
    lemma_compiled_term(ps, i, ps[i].object);
    let t = ps[i];
    assert(t.subject == PatTerm::Variable(vars[c]) || t.predicate == PatTerm::Variable(vars[c])
        || t.object == PatTerm::Variable(vars[c]));
    i
}

/// A plan that takes every pattern gives exactly the solutions, each once.
pub proof fn law_plan_gives_solutions(set: Set<IdTriple>, ps: Seq<PatTriple>, plan: Seq<int>)
    requires
        clean(set),
        pattern_vars(ps).len() <= usize::MAX,
        forall|k: int| 0 <= k < plan.len() ==> 0 <= #[trigger] plan[k] < ps.len(),
        forall|i: int| 0 <= i < ps.len() ==> #[trigger] plan.contains(i),
    ensures
        forall|r: Seq<u32>| #[trigger] plan_rows(set, ps, plan).contains(r) <==> solution(set, ps, r),
        plan_rows(set, ps, plan).no_duplicates(),
{
    let n = pattern_vars(ps).len();
    let steps = planned(ps, plan);
    let row = blank_row(n);
    lemma_compiled_ok(ps);
    if ps.len() > 0 {
        assert(plan.contains(0));
    }
    assert forall|i: int| 0 <= i < steps.len() implies step_fits(#[trigger] steps[i], n) by {
        assert(steps[i] == compiled(ps)[plan[i]]);
    }
    lemma_plan(set, steps, row, 0);
    assert forall|r: Seq<u32>| #[trigger] plan_rows(set, ps, plan).contains(r) <==> solution(set, ps, r) by {
        assert(plan_from(set, steps, row, 0).contains(r) <==> completes(set, steps, row, 0, r));
        if completes(set, steps, row, 0, r) {
            assert forall|i: int| 0 <= i < ps.len() implies set.contains(
                triple_under(#[trigger] compiled(ps)[i], r),
            ) by {
                assert(plan.contains(i));
                let k = choose|k: int| 0 <= k < plan.len() && plan[k] == i;
                assert(set.contains(triple_under(steps[k], r)));
            }
            assert forall|c: int| 0 <= c < r.len() implies #[trigger] r[c] != UNBOUND by {
                let i = lemma_col_used(ps, c);
                assert(set.contains(triple_under(compiled(ps)[i], r)));
            }
        }
        if solution(set, ps, r) {
            assert forall|c: int| 0 <= c < r.len() && !later_col(steps, 0, c) implies #[trigger] r[c]
                == row[c] by {
                let i = lemma_col_used(ps, c);
                assert(plan.contains(i));
                let k = choose|k: int| 0 <= k < plan.len() && plan[k] == i;
                assert(has_col(steps[k], c));
                assert(later_col(steps, 0, c));
            }
            assert forall|i: int| 0 <= i < steps.len() implies set.contains(
                triple_under(#[trigger] steps[i], r),
            ) by {
                assert(steps[i] == compiled(ps)[plan[i]]);
            }
        }
    }
}

// --- Worst-case optimal join -------------------------------------------------------

/// Every step joins two columns by a stored predicate.
spec fn binary_steps(set: Set<IdTriple>, steps: Seq<Step>, width: nat) -> bool {
    forall|i: int|
        0 <= i < steps.len() ==> (#[trigger] steps[i]).s is Col && steps[i].o is Col && step_fits(
            steps[i],
            width,
        ) && (steps[i].p matches Slot::Id(p)
            && crate::hypertrie::permutations::predicate_occurs(set, p))
}

/// Columns below `depth` are bound, the others are not.
spec fn bound_below(row: Seq<u32>, depth: int) -> bool {
    forall|c: int| 0 <= c < row.len() ==> ((#[trigger] row[c] != UNBOUND) <==> c < depth)
}

/// The steps whose columns all lie below `depth` hold.
spec fn holds_below(set: Set<IdTriple>, steps: Seq<Step>, row: Seq<u32>, depth: int) -> bool {
    forall|i: int|
        0 <= i < steps.len() && (steps[i].s->Col_0) < depth && (steps[i].o->Col_0) < depth
            ==> set.contains(triple_under(#[trigger] steps[i], row))
}

/// Every column from `depth` on belongs to a step.
spec fn cols_used(steps: Seq<Step>, depth: int, width: nat) -> bool {
    forall|c: int| depth <= c < width ==> #[trigger] later_col(steps, 0, c)
}

spec fn joins(set: Set<IdTriple>, steps: Seq<Step>, row: Seq<u32>, depth: int, r: Seq<u32>) -> bool {
    &&& r.len() == row.len()
    &&& forall|c: int| 0 <= c < depth ==> #[trigger] r[c] == row[c]
    &&& forall|c: int| 0 <= c < r.len() ==> #[trigger] r[c] != UNBOUND
    &&& forall|i: int| 0 <= i < steps.len() ==> set.contains(triple_under(#[trigger] steps[i], r))
}

proof fn lemma_wcoj_over(
    set: Set<IdTriple>,
    steps: Seq<Step>,
    row: Seq<u32>,
    vals: Seq<u32>,
    depth: int,
    r: Seq<u32>,
)
    requires
        0 <= depth < row.len(),
    ensures
        wcoj_over(set, steps, row, vals, depth).contains(r) <==> exists|j: int|
            0 <= j < vals.len() && wcoj_from(
                set,
                steps,
                row.update(depth, #[trigger] vals[j]),
                depth + 1,
            ).contains(r),
    decreases vals.len(),
{
    if vals.len() > 0 {
        let rest = vals.drop_last();
        lemma_wcoj_over(set, steps, row, rest, depth, r);
        let a = wcoj_over(set, steps, row, rest, depth);
        let b = wcoj_from(set, steps, row.update(depth, vals.last()), depth + 1);
        lemma_joined_contains(a, b, r);
        assert(vals[vals.len() - 1] == vals.last());
        if a.contains(r) {
            let j = choose|j: int|
                0 <= j < rest.len() && wcoj_from(
                    set,
                    steps,
                    row.update(depth, #[trigger] rest[j]),
                    depth + 1,
                ).contains(r);
            assert(vals[j] == rest[j]);
        }
        if exists|j: int|
            0 <= j < vals.len() && wcoj_from(
                set,
                steps,
                row.update(depth, #[trigger] vals[j]),
                depth + 1,
            ).contains(r) {
            let j = choose|j: int|
                0 <= j < vals.len() && wcoj_from(
                    set,
                    steps,
                    row.update(depth, #[trigger] vals[j]),
                    depth + 1,
                ).contains(r);
            if j < rest.len() {
                assert(vals[j] == rest[j]);
            }
        }
    }
}

/// What a candidate means: the steps that end at this column hold with it.
proof fn lemma_candidate(set: Set<IdTriple>, steps: Seq<Step>, row: Seq<u32>, depth: int, v: u32)
    requires
        clean(set),
        binary_steps(set, steps, row.len()),
        row.len() <= usize::MAX,
        0 <= depth < row.len(),
        bound_below(row, depth),
        holds_below(set, steps, row, depth),
        candidates(set, steps, depth, row).contains(v),
    ensures
        v != UNBOUND,
        bound_below(row.update(depth, v), depth + 1),
        holds_below(set, steps, row.update(depth, v), depth + 1),
{
    let next = row.update(depth, v);
    let q = choose|i: int|
        0 <= i < steps.len() && (#[trigger] slice_for(set, steps[i], depth, row)) is Some;
    assert(allows(set, steps, q, depth, row, v));
    assert(steps[q].s is Col);
    let sp = steps[q];
    let slice = slice_for(set, sp, depth, row)->0;
    assert(slice.contains(v));
    assert(v != UNBOUND) by {
        let p = sp.p->Id_0;
        if sp.s == Slot::Col(depth as usize) && sp.o == sp.s {
            assert(set.contains((v, p, v)));
        } else if sp.s == Slot::Col(depth as usize) {
            if asked(row, sp.o) is Bound {
                assert(set.contains((v, p, asked(row, sp.o)->Bound_0)));
            } else {
                let o = choose|o: u32| set.contains((v, p, o));
                assert(set.contains((v, p, o)));
            }
        } else {
            if asked(row, sp.s) is Bound {
                assert(set.contains((asked(row, sp.s)->Bound_0, p, v)));
            } else {
                let s = choose|s: u32| set.contains((s, p, v));
                assert(set.contains((s, p, v)));
            }
        }
    }
    assert forall|i: int|
        0 <= i < steps.len() && (steps[i].s->Col_0) < depth + 1 && (steps[i].o->Col_0) < depth + 1 implies set.contains(
        triple_under(#[trigger] steps[i], next),
    ) by {
        let st = steps[i];
        assert(st.s is Col && st.o is Col && st.p is Id);
        assert(allows(set, steps, i, depth, row, v));
        let s = (st.s->Col_0) as int;
        let o = (st.o->Col_0) as int;
        if s == depth && o == depth {
            assert(st.s == Slot::Col(depth as usize) && st.o == st.s);
        } else if s == depth {
            assert(row[o] != UNBOUND);
            assert(st.s == Slot::Col(depth as usize));
        } else if o == depth {
            assert(row[s] != UNBOUND);
            assert(st.o == Slot::Col(depth as usize));
        } else {
            assert(triple_under(st, next) == triple_under(st, row));
        }
    }
}

/// A value that leads to a solution is a candidate.
proof fn lemma_is_candidate(set: Set<IdTriple>, steps: Seq<Step>, row: Seq<u32>, depth: int, r: Seq<u32>)
    requires
        binary_steps(set, steps, row.len()),
        row.len() <= usize::MAX,
        0 <= depth < row.len(),
        bound_below(row, depth),
        cols_used(steps, depth, row.len()),
        joins(set, steps, row, depth, r),
    ensures
        candidates(set, steps, depth, row).contains(r[depth]),
{
    let v = r[depth];
    assert(later_col(steps, 0, depth));
    let q = choose|i: int| 0 <= i < steps.len() && has_col(#[trigger] steps[i], depth);
    assert(steps[q].s is Col);
    assert(slice_for(set, steps[q], depth, row) is Some);
    assert(restricted(set, steps, depth, row));
    assert forall|i: int| 0 <= i < steps.len() implies #[trigger] allows(set, steps, i, depth, row, v) by {
        let st = steps[i];
        assert(st.s is Col && st.o is Col && st.p is Id);
        assert(set.contains(triple_under(st, r)));
        let s = (st.s->Col_0) as int;
        let o = (st.o->Col_0) as int;
        if s == depth && o == depth {
            assert(set.contains((v, st.p->Id_0, v)));
        } else if s == depth {
            if o < depth {
                assert(row[o] != UNBOUND && r[o] == row[o]);
            } else {
                assert(row[o] == UNBOUND);
                assert(set.contains((v, st.p->Id_0, r[o])));
            }
        } else if o == depth {
            if s < depth {
                assert(row[s] != UNBOUND && r[s] == row[s]);
            } else {
                assert(row[s] == UNBOUND);
                assert(set.contains((r[s], st.p->Id_0, v)));
            }
        }
    }
}

proof fn lemma_candidates_finite(set: Set<IdTriple>, steps: Seq<Step>, row: Seq<u32>, depth: int)
    requires
        set.finite(),
    ensures
        candidates(set, steps, depth, row).finite(),
{
    let c = candidates(set, steps, depth, row);
    if restricted(set, steps, depth, row) {
        let q = choose|i: int|
            0 <= i < steps.len() && (#[trigger] slice_for(set, steps[i], depth, row)) is Some;
        let st = steps[q];
        let slice = slice_for(set, st, depth, row)->0;
        let p = st.p->Id_0;
        assert(slice.finite()) by {
            let so = asked(row, st.o);
            let ss = asked(row, st.s);
            lemma_finite_parts(set, p, so->Bound_0);
            lemma_finite_parts(set, ss->Bound_0, p);
            lemma_finite_parts(set, p, p);
            assert forall|v: u32| loops(set, p).contains(v) implies subjects_having(set, p).contains(v) by {
                assert(set.contains((v, p, v)));
            }
            vstd::set_lib::lemma_set_subset_finite(subjects_having(set, p), loops(set, p));
        }
        assert forall|v: u32| c.contains(v) implies slice.contains(v) by {
            assert(allows(set, steps, q, depth, row, v));
        }
        vstd::set_lib::lemma_set_subset_finite(slice, c);
    } else {
        assert(c =~= Set::<u32>::empty());
    }
}

/// The join gives exactly the rows that solve all steps, each once.
proof fn lemma_wcoj(set: Set<IdTriple>, steps: Seq<Step>, row: Seq<u32>, depth: int)
    requires
        clean(set),
        binary_steps(set, steps, row.len()),
        row.len() <= usize::MAX,
        0 <= depth <= row.len(),
        bound_below(row, depth),
        holds_below(set, steps, row, depth),
        cols_used(steps, depth, row.len()),
    ensures
        forall|r: Seq<u32>| #[trigger]
            wcoj_from(set, steps, row, depth).contains(r) <==> joins(set, steps, row, depth, r),
        wcoj_from(set, steps, row, depth).no_duplicates(),
    decreases row.len() - depth, 1nat, 0nat,
{
    let all = wcoj_from(set, steps, row, depth);
    if depth == row.len() {
        assert forall|r: Seq<u32>| #[trigger] all.contains(r) <==> joins(set, steps, row, depth, r) by {
            assert(all[0] == row);
            if joins(set, steps, row, depth, r) {
                assert(r =~= row);
            }
            if all.contains(r) {
                assert(r == row);
                assert forall|i: int| 0 <= i < steps.len() implies set.contains(
                    triple_under(#[trigger] steps[i], r),
                ) by {
                    assert(step_fits(steps[i], row.len()));
                }
            }
        }
    } else {
        let c = candidates(set, steps, depth, row);
        let vals = in_order(c);
        lemma_candidates_finite(set, steps, row, depth);
        crate::sorted::lemma_in_order_of(c);
        assert forall|j: int| 0 <= j < vals.len() implies c.contains(#[trigger] vals[j]) by {
            assert(vals.contains(vals[j]));
            assert(crate::sorted::members(vals).contains(vals[j]));
        }
        assert forall|r: Seq<u32>| #[trigger] all.contains(r) <==> joins(set, steps, row, depth, r) by {
            lemma_wcoj_over(set, steps, row, vals, depth, r);
            if all.contains(r) {
                let j = choose|j: int|
                    0 <= j < vals.len() && wcoj_from(
                        set,
                        steps,
                        row.update(depth, #[trigger] vals[j]),
                        depth + 1,
                    ).contains(r);
                let next = row.update(depth, vals[j]);
                lemma_candidate(set, steps, row, depth, vals[j]);
                lemma_wcoj(set, steps, next, depth + 1);
                assert(joins(set, steps, next, depth + 1, r));
                assert forall|k: int| 0 <= k < depth implies #[trigger] r[k] == row[k] by {
                    assert(r[k] == next[k]);
                }
            }
            if joins(set, steps, row, depth, r) {
                lemma_is_candidate(set, steps, row, depth, r);
                let v = r[depth];
                let next = row.update(depth, v);
                assert(crate::sorted::members(vals).contains(v));
                let j = choose|j: int| 0 <= j < vals.len() && vals[j] == v;
                lemma_candidate(set, steps, row, depth, v);
                lemma_wcoj(set, steps, next, depth + 1);
                assert(joins(set, steps, next, depth + 1, r));
                assert(wcoj_from(set, steps, row.update(depth, vals[j]), depth + 1).contains(r));
            }
        }
        lemma_wcoj_over_once(set, steps, row, vals, depth);
    }
}

proof fn lemma_wcoj_over_once(
    set: Set<IdTriple>,
    steps: Seq<Step>,
    row: Seq<u32>,
    vals: Seq<u32>,
    depth: int,
)
    requires
        clean(set),
        binary_steps(set, steps, row.len()),
        row.len() <= usize::MAX,
        0 <= depth < row.len(),
        bound_below(row, depth),
        holds_below(set, steps, row, depth),
        cols_used(steps, depth, row.len()),
        crate::sorted::increasing(vals),
        forall|j: int|
            0 <= j < vals.len() ==> candidates(set, steps, depth, row).contains(#[trigger] vals[j]),
    ensures
        wcoj_over(set, steps, row, vals, depth).no_duplicates(),
    decreases row.len() - depth, 0nat, vals.len(),
{
    if vals.len() > 0 {
        let rest = vals.drop_last();
        let last = vals.last();
        assert(vals[vals.len() - 1] == last);
        assert forall|j: int| 0 <= j < rest.len() implies candidates(set, steps, depth, row).contains(
            #[trigger] rest[j],
        ) by {
            assert(rest[j] == vals[j]);
        }
        lemma_wcoj_over_once(set, steps, row, rest, depth);
        let next = row.update(depth, last);
        lemma_candidate(set, steps, row, depth, last);
        lemma_wcoj(set, steps, next, depth + 1);
        let a = wcoj_over(set, steps, row, rest, depth);
        let b = wcoj_from(set, steps, next, depth + 1);
        assert forall|i: int, j: int| 0 <= i < a.len() && 0 <= j < b.len() implies a[i] != b[j] by {
            if a[i] == b[j] {
                let r = a[i];
                assert(a.contains(r));
                assert(b.contains(r));
                lemma_wcoj_over(set, steps, row, rest, depth, r);
                let q = choose|q: int|
                    0 <= q < rest.len() && wcoj_from(
                        set,
                        steps,
                        row.update(depth, #[trigger] rest[q]),
                        depth + 1,
                    ).contains(r);
                let other = row.update(depth, rest[q]);
                lemma_candidate(set, steps, row, depth, rest[q]);
                lemma_wcoj(set, steps, other, depth + 1);
                assert(joins(set, steps, other, depth + 1, r));
                assert(joins(set, steps, next, depth + 1, r));
                assert(r[depth] == other[depth] && r[depth] == next[depth]);
                assert(vals[q] == rest[q]);
                assert(vals[q] < last);
            }
        }
        lemma_disjoint_join(a, b);
    }
}

/// The worst-case optimal join gives exactly the solutions, each once.
pub proof fn law_wcoj_gives_solutions(set: Set<IdTriple>, ps: Seq<PatTriple>)
    requires
        clean(set),
        wcoj_applicable(set, ps),
        pattern_vars(ps).len() <= usize::MAX,
    ensures
        forall|r: Seq<u32>| #[trigger] wcoj_rows(set, ps).contains(r) <==> solution(set, ps, r),
        wcoj_rows(set, ps).no_duplicates(),
{
    let n = pattern_vars(ps).len();
    let steps = compiled(ps);
    let row = blank_row(n);
    lemma_compiled_ok(ps);
    assert forall|i: int| 0 <= i < steps.len() implies (#[trigger] steps[i]).s is Col && steps[i].o is Col
        && step_fits(steps[i], n) && (steps[i].p matches Slot::Id(p)
        && crate::hypertrie::permutations::predicate_occurs(set, p)) by {
        assert(steps[i] == compiled(ps)[i]);
        assert(crate::hypertrie::executor::binary_step(set, ps[i]));
    }
    assert forall|c: int| 0 <= c < n implies #[trigger] later_col(steps, 0, c) by {
        let i = lemma_col_used(ps, c);
        assert(has_col(steps[i], c));
    }
    lemma_wcoj(set, steps, row, 0);
    assert forall|r: Seq<u32>| #[trigger] wcoj_rows(set, ps).contains(r) <==> solution(set, ps, r) by {
        assert(wcoj_from(set, steps, row, 0).contains(r) <==> joins(set, steps, row, 0, r));
    }
}

/// Both ways of execution give the same rows, each once.
pub proof fn law_joins_agree(set: Set<IdTriple>, ps: Seq<PatTriple>, plan: Seq<int>)
    requires
        clean(set),
        wcoj_applicable(set, ps),
        pattern_vars(ps).len() <= usize::MAX,
        forall|k: int| 0 <= k < plan.len() ==> 0 <= #[trigger] plan[k] < ps.len(),
        forall|i: int| 0 <= i < ps.len() ==> #[trigger] plan.contains(i),
    ensures
        forall|r: Seq<u32>|
            #![trigger plan_rows(set, ps, plan).contains(r)]
            #![trigger wcoj_rows(set, ps).contains(r)]
            plan_rows(set, ps, plan).contains(r) <==> wcoj_rows(set, ps).contains(r),
        plan_rows(set, ps, plan).no_duplicates(),
        wcoj_rows(set, ps).no_duplicates(),
{
    law_plan_gives_solutions(set, ps, plan);
    law_wcoj_gives_solutions(set, ps);
    assert forall|r: Seq<u32>|
        #![trigger plan_rows(set, ps, plan).contains(r)]
        #![trigger wcoj_rows(set, ps).contains(r)]
        plan_rows(set, ps, plan).contains(r) <==> wcoj_rows(set, ps).contains(r) by {
        assert(plan_rows(set, ps, plan).contains(r) <==> solution(set, ps, r));
        assert(wcoj_rows(set, ps).contains(r) <==> solution(set, ps, r));
    }
}

} // verus!
