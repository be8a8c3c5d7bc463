//! Execution of graph patterns: by a plan, or by a worst-case optimal join.

use crate::hypertrie::csr::IdTriple;
use crate::hypertrie::index::cow_slice;
use crate::hypertrie::permutations::{
    answer, objects, objects_having, predicate_occurs, subjects, subjects_having, Answer,
    Permutations, QueryResult, Term, Var,
};
use crate::hypertrie::planner::{
    greedy, names, pattern_vars, triple_vars, ExecutionPlan, GraphPattern, PatTerm, PatTriple, PatternTerm,
    TriplePattern,
};
use crate::hypertrie::query::TripleStore;
use crate::sorted::{find, in_order, increasing, members};
use crate::text::{decimal, decimal_text, same_text};
use std::borrow::Cow;
use vstd::prelude::*;
use vstd::slice::slice_to_vec;

pub use crate::hypertrie::rows::{RowBlock, RowIter, UNBOUND};

verus! {

/// How many result rows are allowed when nothing else is set.
pub const DEFAULT_MAX_ROWS: usize = 20_000_000;

/// The text of the error for results with more rows than allowed.
pub open spec fn too_large_text(cap: nat) -> Seq<char> {
    "result exceeds "@ + decimal(cap)
        + " rows (likely an unbounded/cross-product query); raise TRILLIAN_MAX_ROWS to allow"@
}

fn result_too_large(cap: usize) -> (s: String)
    ensures
        s@ == too_large_text(cap as nat),
{
    let mut s: String = String::new();
    s.push_str("result exceeds ");
    let n: String = decimal_text(cap as u64);
    s.push_str(n.as_str());
    s.push_str(" rows (likely an unbounded/cross-product query); raise TRILLIAN_MAX_ROWS to allow");
    assert(s@ =~= too_large_text(cap as nat));
    s
}

// --- Compiled patterns -------------------------------------------------------

/// A position of a compiled pattern: a known identifier or a column.
#[derive(Debug, Clone, Copy, PartialEq, Eq, Structural)]
pub enum Slot {
    Id(u32),
    Col(usize),
}

/// A triple pattern whose variables are column numbers.
#[derive(Debug, Clone, Copy, PartialEq, Eq, Structural)]
pub struct Step {
    pub s: Slot,
    pub p: Slot,
    pub o: Slot,
}

/// The first place of `name` in `vars`, from `i` on.
pub open spec fn place_from(vars: Seq<Seq<char>>, name: Seq<char>, i: int) -> int
    decreases vars.len() - i,
{
    if i < 0 || i >= vars.len() || vars[i] == name {
        i
    } else {
        place_from(vars, name, i + 1)
    }
}

/// The column of a variable.
pub open spec fn place(vars: Seq<Seq<char>>, name: Seq<char>) -> int {
    place_from(vars, name, 0)
}

proof fn lemma_place(vars: Seq<Seq<char>>, name: Seq<char>, i: int)
    requires
        0 <= i <= vars.len(),
    ensures
        i <= place_from(vars, name, i) <= vars.len(),
        place_from(vars, name, i) < vars.len() ==> vars[place_from(vars, name, i)] == name,
        place_from(vars, name, i) == vars.len() ==> forall|k: int| i <= k < vars.len() ==> vars[k] != name,
    decreases vars.len() - i,
{
    if i < vars.len() && vars[i] != name {
        lemma_place(vars, name, i + 1);
    }
}

/// A name has a column, or the number of columns stands for none.
pub proof fn lemma_place_bounds(vars: Seq<Seq<char>>, name: Seq<char>)
    ensures
        0 <= place(vars, name) <= vars.len(),
        place(vars, name) < vars.len() ==> vars[place(vars, name)] == name,
        place(vars, name) < vars.len() <==> vars.contains(name),
{
    lemma_place(vars, name, 0);
}

/// A position with the variable replaced by its column.
pub open spec fn compiled_term(vars: Seq<Seq<char>>, t: PatTerm) -> Slot {
    match t {
        PatTerm::Bound(id) => Slot::Id(id),
        PatTerm::Variable(name) => Slot::Col(place(vars, name) as usize),
    }
}

pub open spec fn compiled_triple(vars: Seq<Seq<char>>, t: PatTriple) -> Step {
    Step {
        s: compiled_term(vars, t.subject),
        p: compiled_term(vars, t.predicate),
        o: compiled_term(vars, t.object),
    }
}

/// The patterns with their variables replaced by columns.
pub open spec fn compiled(ps: Seq<PatTriple>) -> Seq<Step> {
    Seq::new(ps.len(), |i: int| compiled_triple(pattern_vars(ps), ps[i]))
}

pub open spec fn slot_fits(slot: Slot, width: nat) -> bool {
    match slot {
        Slot::Id(_) => true,
        Slot::Col(c) => c < width,
    }
}

pub open spec fn step_fits(step: Step, width: nat) -> bool {
    slot_fits(step.s, width) && slot_fits(step.p, width) && slot_fits(step.o, width)
}

/// A term of a pattern is compiled to a column that carries its name.
pub proof fn lemma_compiled_term(ps: Seq<PatTriple>, i: int, t: PatTerm)
    requires
        pattern_vars(ps).len() <= usize::MAX,
        0 <= i < ps.len(),
        t == ps[i].subject || t == ps[i].predicate || t == ps[i].object,
    ensures
        slot_fits(compiled_term(pattern_vars(ps), t), pattern_vars(ps).len()),
        t matches PatTerm::Variable(name) ==> {
            let c = place(pattern_vars(ps), name);
            0 <= c < pattern_vars(ps).len() && pattern_vars(ps)[c] == name && compiled_term(
                pattern_vars(ps),
                t,
            ) == Slot::Col(c as usize)
        },
{
    let vars = pattern_vars(ps);
    crate::hypertrie::planner::law_pattern_vars(ps);
    if let PatTerm::Variable(name) = t {
        lemma_place(vars, name, 0);
        let tv = triple_vars(ps[i]);
        let k = if t == ps[i].subject {
            0
        } else if t == ps[i].predicate {
            crate::hypertrie::planner::term_vars(ps[i].subject).len() as int
        } else {
            tv.len() - 1
        };
        assert(tv[k] == name);
        assert(tv.contains(name));
        assert(crate::hypertrie::planner::mentions(ps, name));
        assert(vars.contains(name));
    }
}

/// The column of a name.
fn place_of(vars: &Vec<&String>, name: &String) -> (c: usize)
    ensures
        c == place(names(vars@), name@),
{
    let mut i: usize = 0;
    let ghost ns = names(vars@);
    while i < vars.len()
        invariant
            ns == names(vars@),
            i <= vars@.len(),
            place(ns, name@) == place_from(ns, name@, i as int),
        decreases vars@.len() - i,
    {
        if same_text(vars[i].as_str(), name.as_str()) {
            assert(ns[i as int] == name@);
            return i;
        }
        assert(ns[i as int] != name@);
        i += 1;
    }
    i
}

/// The identifier at a position under a row; nothing for a variable that is not a
/// column or has no value yet.
pub open spec fn resolved(t: PatTerm, vars: Seq<Seq<char>>, row: Seq<u32>) -> Option<u32> {
    match t {
        PatTerm::Bound(id) => Some(id),
        PatTerm::Variable(name) => if place(vars, name) < vars.len() && row[place(vars, name)]
            != UNBOUND {
            Some(row[place(vars, name)])
        } else {
            None
        },
    }
}

impl PatternTerm {
    /// The identifier at this position, if it is given or bound already.
    pub fn bound_or_resolved(&self, binding: &[u32], vars: &Vec<&String>) -> (r: Option<u32>)
        requires
            binding@.len() >= vars@.len(),
        ensures
            r == resolved(self@, names(vars@), binding@),
    {
        match self {
            PatternTerm::Bound(id) => Some(*id),
            PatternTerm::Variable(name) => {
                let c: usize = place_of(vars, name);
                assert(names(vars@).len() == vars@.len());
                if c < vars.len() && binding[c] != UNBOUND {
                    Some(binding[c])
                } else {
                    None
                }
            },
        }
    }
}

fn compile_term(vars: &Vec<&String>, t: &PatternTerm) -> (s: Slot)
    ensures
        s == compiled_term(names(vars@), t@),
{
    match t {
        PatternTerm::Bound(id) => Slot::Id(*id),
        PatternTerm::Variable(name) => Slot::Col(place_of(vars, name)),
    }
}

/// Replaces variables by columns; gives the number of columns too.
fn compile(pattern: &GraphPattern) -> (r: (Vec<Step>, usize))
    ensures
        r.0@ == compiled(pattern@),
        r.1 == pattern_vars(pattern@).len(),
        forall|i: int| 0 <= i < r.0@.len() ==> step_fits(#[trigger] r.0@[i], r.1 as nat),
{
    let vars: Vec<&String> = pattern.variable_order();
    let width: usize = vars.len();
    let ghost ps = pattern@;
    assert(names(vars@).len() == vars@.len());
    let mut steps: Vec<Step> = Vec::new();
    let mut i: usize = 0;
    while i < pattern.patterns.len()
        invariant
            ps == pattern@,
            names(vars@) == pattern_vars(ps),
            width == pattern_vars(ps).len(),
            i <= pattern.patterns@.len(),
            steps@ == compiled(ps).take(i as int),
            forall|k: int| 0 <= k < steps@.len() ==> step_fits(#[trigger] steps@[k], width as nat),
        decreases pattern.patterns@.len() - i,
    {
        let t: &TriplePattern = &pattern.patterns[i];
        let step: Step = Step {
            s: compile_term(&vars, &t.subject),
            p: compile_term(&vars, &t.predicate),
            o: compile_term(&vars, &t.object),
        };
        proof {
            assert(ps[i as int] == t@);
            lemma_compiled_term(ps, i as int, t@.subject);
            lemma_compiled_term(ps, i as int, t@.predicate);
            lemma_compiled_term(ps, i as int, t@.object);
        }
        steps.push(step);
        i += 1;
        assert(steps@ =~= compiled(ps).take(i as int));
    }
    assert(compiled(ps).take(i as int) =~= compiled(ps));
    (steps, width)
}

// --- One pattern -------------------------------------------------------------

/// What a position asks for, given a row.
pub open spec fn asked(row: Seq<u32>, slot: Slot) -> Term {
    match slot {
        Slot::Id(id) => Term::Bound(id),
        Slot::Col(c) => if row[c as int] != UNBOUND {
            Term::Bound(row[c as int])
        } else {
            Term::Wildcard
        },
    }
}

/// The row with a value written to a column.
pub open spec fn put(row: Seq<u32>, slot: Slot, v: u32) -> Seq<u32> {
    match slot {
        Slot::Id(_) => row,
        Slot::Col(c) => row.update(c as int, v),
    }
}

/// The position of a pattern.
pub open spec fn slot_at(step: Step, var: Var) -> Slot {
    match var {
        Var::S => step.s,
        Var::P => step.p,
        Var::O => step.o,
    }
}

/// The members that pass, in their order.
pub open spec fn kept<A>(s: Seq<A>, keep: spec_fn(A) -> bool) -> Seq<A>
    decreases s.len(),
{
    if s.len() == 0 {
        Seq::empty()
    } else if keep(s.last()) {
        kept(s.drop_last(), keep).push(s.last())
    } else {
        kept(s.drop_last(), keep)
    }
}

/// What is kept is what was there and passes, each once if it was there once.
pub proof fn lemma_kept<A>(s: Seq<A>, keep: spec_fn(A) -> bool)
    ensures
        forall|x: A| #[trigger] kept(s, keep).contains(x) <==> s.contains(x) && keep(x),
        s.no_duplicates() ==> kept(s, keep).no_duplicates(),
    decreases s.len(),
{
    let all = kept(s, keep);
    if s.len() > 0 {
        let rest = s.drop_last();
        let before = kept(rest, keep);
        lemma_kept(rest, keep);
        assert forall|x: A| #[trigger] all.contains(x) <==> s.contains(x) && keep(x) by {
            if all.contains(x) {
                let i = choose|i: int| 0 <= i < all.len() && all[i] == x;
                if i < before.len() {
                    assert(before.contains(before[i]));
                    let k = choose|k: int| 0 <= k < rest.len() && rest[k] == x;
                    assert(s[k] == x);
                } else {
                    assert(s[s.len() - 1] == x);
                }
            }
            if s.contains(x) && keep(x) {
                let k = choose|k: int| 0 <= k < s.len() && s[k] == x;
                if k < rest.len() {
                    assert(rest[k] == x);
                    assert(before.contains(x));
                    let i = choose|i: int| 0 <= i < before.len() && before[i] == x;
                    assert(all[i] == x);
                } else {
                    assert(all[all.len() - 1] == x);
                }
            }
        }
        if s.no_duplicates() {
            assert(rest.no_duplicates()) by {
                assert forall|i: int, j: int| 0 <= i < rest.len() && 0 <= j < rest.len() && i != j implies rest[i]
                    != rest[j] by {
                    assert(s[i] != s[j]);
                }
            }
            assert forall|i: int, j: int| 0 <= i < all.len() && 0 <= j < all.len() && i != j implies all[i]
                != all[j] by {
                let m = if i < j {
                    i
                } else {
                    j
                };
                assert(before.contains(before[m]));
                let k = choose|k: int| 0 <= k < rest.len() && rest[k] == before[m];
                assert(s[k] != s[s.len() - 1]);
            }
        }
    }
}

/// The two values can stand at the two positions: the same position has one value.
pub open spec fn pair_fits(a: Slot, b: Slot, q: (u32, u32)) -> bool {
    a == b ==> q.0 == q.1
}

/// The triple can stand in the pattern: a column that occurs twice has one value.
pub open spec fn triple_fits(step: Step, t: IdTriple) -> bool {
    pair_fits(step.s, step.p, (t.0, t.1)) && pair_fits(step.s, step.o, (t.0, t.2)) && pair_fits(
        step.p,
        step.o,
        (t.1, t.2),
    )
}

/// The rows that continue `row` by one pattern.
pub open spec fn extend(set: Set<IdTriple>, step: Step, row: Seq<u32>) -> Seq<Seq<u32>> {
    match answer(set, asked(row, step.s), asked(row, step.p), asked(row, step.o)) {
        Answer::Exact(found) => if found {
            seq![row]
        } else {
            Seq::empty()
        },
        Answer::Single(v, vals) => vals.map_values(|x: u32| put(row, slot_at(step, v), x)),
        Answer::Double(v, w, pairs) => kept(
            pairs,
            |q: (u32, u32)| pair_fits(slot_at(step, v), slot_at(step, w), q),
        ).map_values(|q: (u32, u32)| put(put(row, slot_at(step, v), q.0), slot_at(step, w), q.1)),
        Answer::All(ts) => kept(ts, |t: IdTriple| triple_fits(step, t)).map_values(
            |t: IdTriple| put(put(put(row, step.s, t.0), step.p, t.1), step.o, t.2),
        ),
    }
}

fn effective_term(row: &[u32], slot: Slot) -> (t: Term)
    requires
        slot_fits(slot, row@.len()),
    ensures
        t == asked(row@, slot),
{
    match slot {
        Slot::Id(id) => Term::Bound(id),
        Slot::Col(c) => {
            let v: u32 = row[c];
            if v != UNBOUND {
                Term::Bound(v)
            } else {
                Term::Wildcard
            }
        },
    }
}

fn put_value(row: &mut Vec<u32>, slot: Slot, v: u32)
    requires
        slot_fits(slot, old(row)@.len()),
    ensures
        final(row)@ == put(old(row)@, slot, v),
{
    match slot {
        Slot::Id(_) => {},
        Slot::Col(c) => {
            row.set(c, v);
        },
    }
}

fn var_slot(step: Step, var: Var) -> (s: Slot)
    ensures
        s == slot_at(step, var),
{
    match var {
        Var::S => step.s,
        Var::P => step.p,
        Var::O => step.o,
    }
}

/// The rows that continue a row by one pattern.
fn extend_pattern(store: &TripleStore, step: Step, row: &[u32]) -> (out: RowBlock)
    requires
        store.wf(),
        step_fits(step, row@.len()),
    ensures
        out.wf(),
        out.width() == row@.len(),
        out@ == extend(store.triples(), step, row@),
{
    let mut out: RowBlock = RowBlock::new(row.len());
    let s: Term = effective_term(row, step.s);
    let p: Term = effective_term(row, step.p);
    let o: Term = effective_term(row, step.o);
    let ghost want = extend(store.triples(), step, row@);
    match store.query(s, p, o) {
        QueryResult::Exact(found) => {
            if found {
                out.push_row(row);
            }
            assert(out@ =~= want);
        },
        QueryResult::Single(v, values) => {
            let slot: Slot = var_slot(step, v);
            let vals: &[u32] = crate::hypertrie::index::cow_slice(&values);
            let mut i: usize = 0;
            while i < vals.len()
                invariant
                    i <= vals@.len(),
                    slot_fits(slot, row@.len()),
                    want == vals@.map_values(|x: u32| put(row@, slot, x)),
                    out.wf(),
                    out.width() == row@.len(),
                    out@ == want.take(i as int),
                decreases vals@.len() - i,
            {
                let mut r: Vec<u32> = slice_to_vec(row);
                put_value(&mut r, slot, vals[i]);
                out.push_row(r.as_slice());
                i += 1;
                assert(out@ =~= want.take(i as int));
            }
            assert(want.take(i as int) =~= want);
        },
        QueryResult::Double(v, w, pairs) => {
            let first: Slot = var_slot(step, v);
            let second: Slot = var_slot(step, w);
            let same: bool = first == second;
            let ghost keep = |q: (u32, u32)| pair_fits(first, second, q);
            let ghost f = |q: (u32, u32)| put(put(row@, first, q.0), second, q.1);
            let mut i: usize = 0;
            assert(pairs@.take(0) =~= Seq::<(u32, u32)>::empty());
            assert(out@ =~= kept(pairs@.take(0), keep).map_values(f));
            while i < pairs.len()
                invariant
                    i <= pairs@.len(),
                    slot_fits(first, row@.len()),
                    slot_fits(second, row@.len()),
                    same == (first == second),
                    keep == (|q: (u32, u32)| pair_fits(first, second, q)),
                    f == (|q: (u32, u32)| put(put(row@, first, q.0), second, q.1)),
                    out.wf(),
                    out.width() == row@.len(),
                    out@.len() <= i,
                    out@ == kept(pairs@.take(i as int), keep).map_values(f),
                decreases pairs@.len() - i,
            {
                let q: (u32, u32) = pairs[i];
                if !same || q.0 == q.1 {
                    let mut r: Vec<u32> = slice_to_vec(row);
                    put_value(&mut r, first, q.0);
                    put_value(&mut r, second, q.1);
                    out.push_row(r.as_slice());
                }
                proof {
                    let now = pairs@.take(i + 1);
                    assert(now.drop_last() =~= pairs@.take(i as int));
                    assert(now.last() == q);
                    assert(keep(q) == (!same || q.0 == q.1));
                    assert(out@ =~= kept(now, keep).map_values(f));
                }
                i += 1;
            }
            assert(pairs@.take(i as int) =~= pairs@);
            assert(out@ =~= want);
        },
        QueryResult::All(ts) => {
            let ghost keep = |t: IdTriple| triple_fits(step, t);
            let ghost f = |t: IdTriple| put(put(put(row@, step.s, t.0), step.p, t.1), step.o, t.2);
            let mut i: usize = 0;
            assert(ts@.take(0) =~= Seq::<IdTriple>::empty());
            assert(out@ =~= kept(ts@.take(0), keep).map_values(f));
            while i < ts.len()
                invariant
                    i <= ts@.len(),
                    step_fits(step, row@.len()),
                    keep == (|t: IdTriple| triple_fits(step, t)),
                    f == (|t: IdTriple| put(put(put(row@, step.s, t.0), step.p, t.1), step.o, t.2)),
                    out.wf(),
                    out.width() == row@.len(),
                    out@.len() <= i,
                    out@ == kept(ts@.take(i as int), keep).map_values(f),
                decreases ts@.len() - i,
            {
                let t: IdTriple = ts[i];
                let fits: bool = (step.s != step.p || t.0 == t.1) && (step.s != step.o || t.0 == t.2) && (
                step.p != step.o || t.1 == t.2);
                if fits {
                    let mut r: Vec<u32> = slice_to_vec(row);
                    put_value(&mut r, step.s, t.0);
                    put_value(&mut r, step.p, t.1);
                    put_value(&mut r, step.o, t.2);
                    out.push_row(r.as_slice());
                }
                proof {
                    let now = ts@.take(i + 1);
                    assert(now.drop_last() =~= ts@.take(i as int));
                    assert(now.last() == t);
                    assert(keep(t) == fits);
                    assert(out@ =~= kept(now, keep).map_values(f));
                }
                i += 1;
            }
            assert(ts@.take(i as int) =~= ts@);
            assert(out@ =~= want);
        },
    }
    out
}

// --- Plans ---------------------------------------------------------------------

/// The complete rows that continue `row` by the steps from `k` on.
pub open spec fn plan_from(set: Set<IdTriple>, steps: Seq<Step>, row: Seq<u32>, k: int) -> Seq<Seq<u32>>
    decreases steps.len() - k, 0nat,
{
    if k < 0 || k >= steps.len() {
        seq![row]
    } else {
        plan_over(set, steps, extend(set, steps[k], row), k + 1)
    }
}

/// The complete rows that continue any of `rows`, in their order.
pub open spec fn plan_over(
    set: Set<IdTriple>,
    steps: Seq<Step>,
    rows: Seq<Seq<u32>>,
    k: int,
) -> Seq<Seq<u32>>
    decreases steps.len() - k, rows.len() + 1,
{
    if rows.len() == 0 {
        Seq::empty()
    } else {
        plan_over(set, steps, rows.drop_last(), k) + plan_from(set, steps, rows.last(), k)
    }
}

/// The row in which nothing is bound yet.
pub open spec fn blank_row(width: nat) -> Seq<u32> {
    Seq::new(width, |i: int| UNBOUND)
}

/// The compiled patterns in the order of a plan.
pub open spec fn planned(ps: Seq<PatTriple>, plan: Seq<int>) -> Seq<Step> {
    Seq::new(plan.len(), |k: int| compiled(ps)[plan[k]])
}

/// All rows that a plan gives. A pattern without triples has one solution, in which
/// nothing is bound; a plan without steps gives nothing for any other.
pub open spec fn plan_rows(set: Set<IdTriple>, ps: Seq<PatTriple>, plan: Seq<int>) -> Seq<Seq<u32>> {
    if plan.len() == 0 && ps.len() > 0 {
        Seq::empty()
    } else {
        plan_from(set, planned(ps, plan), blank_row(pattern_vars(ps).len()), 0)
    }
}

/// At most `stop` rows, from the front.
pub open spec fn capped(rows: Seq<Seq<u32>>, stop: nat) -> Seq<Seq<u32>> {
    if rows.len() <= stop {
        rows
    } else {
        rows.take(stop as int)
    }
}

/// How many rows are produced before execution stops: the limit, or one more
/// than is allowed.
pub open spec fn stop_after(limit: Option<usize>, cap: usize) -> nat {
    let top: nat = if cap < usize::MAX {
        (cap + 1) as nat
    } else {
        cap as nat
    };
    match limit {
        Some(l) => if l < top {
            l as nat
        } else {
            top
        },
        None => top,
    }
}

/// Whether a plan stays within the allowed number of rows.
pub open spec fn plan_fits(
    set: Set<IdTriple>,
    ps: Seq<PatTriple>,
    plan: Seq<int>,
    limit: Option<usize>,
    cap: usize,
) -> bool {
    &&& plan.len() > 0 ==> extend(
        set,
        planned(ps, plan)[0],
        blank_row(pattern_vars(ps).len()),
    ).len() <= cap
    &&& capped(plan_rows(set, ps, plan), stop_after(limit, cap)).len() <= cap
}

fn stop_rows(limit: Option<usize>, cap: usize) -> (stop: usize)
    ensures
        stop == stop_after(limit, cap),
{
    let top: usize = if cap < usize::MAX {
        cap + 1
    } else {
        cap
    };
    match limit {
        Some(l) => if l < top {
            l
        } else {
            top
        },
        None => top,
    }
}

proof fn lemma_capped_join(a: Seq<Seq<u32>>, b: Seq<Seq<u32>>, stop: nat)
    ensures
        capped(capped(a, stop) + b, stop) == capped(a + b, stop),
        a.len() >= stop ==> capped(a + b, stop) == capped(a, stop),
{
    assert(capped(capped(a, stop) + b, stop) =~= capped(a + b, stop));
    if a.len() >= stop {
        assert(capped(a + b, stop) =~= capped(a, stop));
    }
}

/// Passes a row through the steps from `k` on, depth first, and appends the
/// complete rows until there are `stop`.
fn plan_dfs(store: &TripleStore, steps: &[Step], row: &[u32], k: usize, out: &mut RowBlock, stop: usize)
    requires
        store.wf(),
        k <= steps@.len(),
        forall|i: int| 0 <= i < steps@.len() ==> step_fits(#[trigger] steps@[i], row@.len()),
        old(out).wf(),
        old(out).width() == row@.len(),
        old(out)@.len() <= stop,
    ensures
        final(out).wf(),
        final(out).width() == row@.len(),
        final(out)@ == capped(
            old(out)@ + plan_from(store.triples(), steps@, row@, k as int),
            stop as nat,
        ),
    decreases steps@.len() - k,
{
    let ghost set = store.triples();
    let ghost before = out@;
    if out.n_rows() >= stop {
        proof {
            lemma_capped_join(before, plan_from(set, steps@, row@, k as int), stop as nat);
        }
        return;
    }
    if k == steps.len() {
        out.push_row(row);
        assert(out@ =~= before + seq![row@]);
        return;
    }
    let next: RowBlock = extend_pattern(store, steps[k], row);
    let n_steps: usize = steps.len();
    let mut j: usize = 0;
    proof {
        assert(next@.take(0) =~= Seq::<Seq<u32>>::empty());
        assert(before + Seq::<Seq<u32>>::empty() =~= before);
    }
    while j < next.n_rows()
        invariant
            store.wf(),
            set == store.triples(),
            k < steps@.len(),
            n_steps == steps@.len(),
            forall|i: int| 0 <= i < steps@.len() ==> step_fits(#[trigger] steps@[i], row@.len()),
            next.wf(),
            next.width() == row@.len(),
            j <= next@.len(),
            out.wf(),
            out.width() == row@.len(),
            out@.len() <= stop,
            out@ == capped(
                before + plan_over(set, steps@, next@.take(j as int), k + 1),
                stop as nat,
            ),
        decreases next@.len() - j,
    {
        proof {
            let t0 = next@.take(j as int);
            let t1 = next@.take(j + 1);
            assert(t1.drop_last() =~= t0);
            assert(t1.last() == next@[j as int]);
            let a = before + plan_over(set, steps@, t0, k + 1);
            let b = plan_from(set, steps@, next@[j as int], k + 1);
            lemma_capped_join(a, b, stop as nat);
            assert(a + b =~= before + plan_over(set, steps@, t1, k + 1));
        }
        plan_dfs(store, steps, next.row(j), k + 1, out, stop);
        j += 1;
    }
    assert(next@.take(j as int) =~= next@);
}

/// A row with nothing bound.
fn blank(width: usize) -> (r: Vec<u32>)
    ensures
        r@ == blank_row(width as nat),
{
    let mut r: Vec<u32> = Vec::new();
    while r.len() < width
        invariant
            r@.len() <= width,
            r@ == blank_row(r@.len()),
        decreases width - r@.len(),
    {
        r.push(UNBOUND);
        assert(r@ =~= blank_row(r@.len()));
    }
    r
}

/// Executes a plan; an error if the first pattern or the result has more than
/// `max_rows` rows, the number that [`max_result_rows`](crate::hypertrie::max_result_rows)
/// makes of the setting.
pub fn execute_plan(
    store: &TripleStore,
    pattern: &GraphPattern,
    plan: &ExecutionPlan,
    max_rows: usize,
) -> (r: Result<RowBlock, String>)
    requires
        store.wf(),
        forall|k: int| 0 <= k < plan@.len() ==> 0 <= #[trigger] plan@[k] < pattern@.len(),
    ensures
        match r {
            Ok(b) => plan_fits(store.triples(), pattern@, plan@, None, max_rows) && b.wf() && b.width()
                == pattern_vars(pattern@).len() && b@ == capped(
                plan_rows(store.triples(), pattern@, plan@),
                stop_after(None, max_rows),
            ),
            Err(e) => !plan_fits(store.triples(), pattern@, plan@, None, max_rows) && e@
                == too_large_text(max_rows as nat),
        },
{
    execute_plan_limited(store, pattern, plan, None, max_rows)
}

/// Executes a plan depth first: every partial row is taken through all steps
/// before the next one. Stops after `limit` rows; fails if the first pattern or
/// the result has more than `cap` rows.
pub fn execute_plan_limited(
    store: &TripleStore,
    pattern: &GraphPattern,
    plan: &ExecutionPlan,
    limit: Option<usize>,
    cap: usize,
) -> (r: Result<RowBlock, String>)
    requires
        store.wf(),
        forall|k: int| 0 <= k < plan@.len() ==> 0 <= #[trigger] plan@[k] < pattern@.len(),
    ensures
        match r {
            Ok(b) => plan_fits(store.triples(), pattern@, plan@, limit, cap) && b.wf() && b.width()
                == pattern_vars(pattern@).len() && b@ == capped(
                plan_rows(store.triples(), pattern@, plan@),
                stop_after(limit, cap),
            ),
            Err(e) => !plan_fits(store.triples(), pattern@, plan@, limit, cap) && e@
                == too_large_text(cap as nat),
        },
{
    let (all, width) = compile(pattern);
    let stop: usize = stop_rows(limit, cap);
    let ghost set = store.triples();
    let ghost ps = pattern@;
    let mut out: RowBlock = RowBlock::new(width);
    if plan.steps.len() == 0 {
        if pattern.patterns.len() == 0 && stop > 0 {
            let nothing: Vec<u32> = blank(width);
            out.push_row(nothing.as_slice());
        }
        proof {
            assert(planned(ps, plan@) =~= Seq::<Step>::empty());
            assert(out@ =~= capped(plan_rows(set, ps, plan@), stop as nat));
        }
        if out.n_rows() > cap {
            return Err(result_too_large(cap));
        }
        return Ok(out);
    }
    let mut steps: Vec<Step> = Vec::new();
    let mut k: usize = 0;
    while k < plan.steps.len()
        invariant
            k <= plan.steps@.len(),
            ps == pattern@,
            all@ == compiled(ps),
            forall|i: int| 0 <= i < all@.len() ==> step_fits(#[trigger] all@[i], width as nat),
            forall|k: int| 0 <= k < plan@.len() ==> 0 <= #[trigger] plan@[k] < pattern@.len(),
            steps@ == planned(ps, plan@).take(k as int),
            forall|i: int| 0 <= i < steps@.len() ==> step_fits(#[trigger] steps@[i], width as nat),
        decreases plan.steps@.len() - k,
    {
        assert(plan@[k as int] == plan.steps@[k as int].pattern_index);
        steps.push(all[plan.steps[k].pattern_index]);
        k += 1;
        assert(steps@ =~= planned(ps, plan@).take(k as int));
    }
    assert(steps@ =~= planned(ps, plan@));
    let start: Vec<u32> = blank(width);
    let seed: RowBlock = extend_pattern(store, steps[0], start.as_slice());
    if seed.n_rows() > cap {
        return Err(result_too_large(cap));
    }
    let mut i: usize = 0;
    proof {
        assert(seed@.take(0) =~= Seq::<Seq<u32>>::empty());
        assert(out@ =~= capped(plan_over(set, steps@, seed@.take(0), 1), stop as nat));
    }
    while i < seed.n_rows()
        invariant
            store.wf(),
            set == store.triples(),
            seed.wf(),
            seed.width() == width,
            steps@.len() > 0,
            forall|i: int| 0 <= i < steps@.len() ==> step_fits(#[trigger] steps@[i], width as nat),
            i <= seed@.len(),
            out.wf(),
            out.width() == width,
            out@.len() <= stop,
            out@ == capped(plan_over(set, steps@, seed@.take(i as int), 1), stop as nat),
        decreases seed@.len() - i,
    {
        proof {
            let t0 = seed@.take(i as int);
            let t1 = seed@.take(i + 1);
            assert(t1.drop_last() =~= t0);
            assert(t1.last() == seed@[i as int]);
            lemma_capped_join(
                plan_over(set, steps@, t0, 1),
                plan_from(set, steps@, seed@[i as int], 1),
                stop as nat,
            );
        }
        plan_dfs(store, steps.as_slice(), seed.row(i), 1, &mut out, stop);
        i += 1;
    }
    assert(seed@.take(i as int) =~= seed@);
    if out.n_rows() > cap {
        return Err(result_too_large(cap));
    }
    Ok(out)
}

// --- Worst-case optimal join -----------------------------------------------------

/// The nodes that predicate `p` connects with themselves.
pub open spec fn loops(set: Set<IdTriple>, p: u32) -> Set<u32> {
    Set::new(|v: u32| set.contains((v, p, v)))
}

/// The values that one pattern allows for column `col`, given the columns that
/// are bound. Patterns without a stored predicate or without the column say
/// nothing.
pub open spec fn slice_for(set: Set<IdTriple>, step: Step, col: int, row: Seq<u32>) -> Option<Set<u32>> {
    match step.p {
        Slot::Id(p) => if !predicate_occurs(set, p) {
            None
        } else if step.s == Slot::Col(col as usize) && step.o == step.s {
            Some(loops(set, p))
        } else if step.s == Slot::Col(col as usize) {
            match asked(row, step.o) {
                Term::Bound(o) => Some(subjects(set, p, o)),
                Term::Wildcard => Some(subjects_having(set, p)),
            }
        } else if step.o == Slot::Col(col as usize) {
            match asked(row, step.s) {
                Term::Bound(s) => Some(objects(set, s, p)),
                Term::Wildcard => Some(objects_having(set, p)),
            }
        } else {
            None
        },
        Slot::Col(_) => None,
    }
}

/// Pattern `i` allows `v` for column `col`, or says nothing about it.
pub open spec fn allows(set: Set<IdTriple>, steps: Seq<Step>, i: int, col: int, row: Seq<u32>, v: u32) -> bool {
    match slice_for(set, steps[i], col, row) {
        Some(x) => x.contains(v),
        None => true,
    }
}

/// Some pattern restricts column `col`.
pub open spec fn restricted(set: Set<IdTriple>, steps: Seq<Step>, col: int, row: Seq<u32>) -> bool {
    exists|i: int| 0 <= i < steps.len() && (#[trigger] slice_for(set, steps[i], col, row)) is Some
}

/// The values that all patterns allow for column `col`.
pub open spec fn candidates(set: Set<IdTriple>, steps: Seq<Step>, col: int, row: Seq<u32>) -> Set<u32> {
    Set::new(
        |v: u32|
            restricted(set, steps, col, row) && forall|i: int|
                0 <= i < steps.len() ==> #[trigger] allows(set, steps, i, col, row, v),
    )
}

/// The complete rows that continue `row` from column `depth` on.
pub open spec fn wcoj_from(set: Set<IdTriple>, steps: Seq<Step>, row: Seq<u32>, depth: int) -> Seq<Seq<u32>>
    decreases row.len() - depth, 1nat, 0nat,
{
    if depth < 0 || depth >= row.len() {
        seq![row]
    } else {
        wcoj_over(set, steps, row, in_order(candidates(set, steps, depth, row)), depth)
    }
}

/// The complete rows with one of `vals` at column `depth`, in their order.
pub open spec fn wcoj_over(
    set: Set<IdTriple>,
    steps: Seq<Step>,
    row: Seq<u32>,
    vals: Seq<u32>,
    depth: int,
) -> Seq<Seq<u32>>
    decreases row.len() - depth, 0nat, vals.len(),
{
    if vals.len() == 0 || depth < 0 || depth >= row.len() {
        Seq::empty()
    } else {
        wcoj_over(set, steps, row, vals.drop_last(), depth) + wcoj_from(
            set,
            steps,
            row.update(depth, vals.last()),
            depth + 1,
        )
    }
}

/// All rows of the worst-case optimal join.
pub open spec fn wcoj_rows(set: Set<IdTriple>, ps: Seq<PatTriple>) -> Seq<Seq<u32>> {
    wcoj_from(set, compiled(ps), blank_row(pattern_vars(ps).len()), 0)
}

/// The pattern joins two variables by a predicate that occurs.
pub open spec fn binary_step(set: Set<IdTriple>, t: PatTriple) -> bool {
    &&& t.subject is Variable
    &&& t.object is Variable
    &&& t.predicate matches PatTerm::Bound(p) && predicate_occurs(set, p)
}

/// Whether the worst-case optimal join can be used.
pub open spec fn wcoj_applicable(set: Set<IdTriple>, ps: Seq<PatTriple>) -> bool {
    forall|i: int| 0 <= i < ps.len() ==> binary_step(set, #[trigger] ps[i])
}

fn is_wcoj_applicable(pattern: &GraphPattern, store: &TripleStore) -> (r: bool)
    requires
        store.wf(),
    ensures
        r == wcoj_applicable(store.triples(), pattern@),
{
    let mut i: usize = 0;
    while i < pattern.patterns.len()
        invariant
            store.wf(),
            i <= pattern.patterns@.len(),
            forall|k: int| 0 <= k < i ==> binary_step(store.triples(), #[trigger] pattern@[k]),
        decreases pattern.patterns@.len() - i,
    {
        let t: &TriplePattern = &pattern.patterns[i];
        let known: bool = match &t.predicate {
            PatternTerm::Bound(p) => store.has_predicate(*p),
            PatternTerm::Variable(_) => false,
        };
        let ok: bool = known && t.subject.is_variable() && t.object.is_variable();
        proof {
            assert(pattern@[i as int] == t@);
            assert(ok == binary_step(store.triples(), t@));
        }
        if !ok {
            return false;
        }
        i += 1;
    }
    true
}

/// The values of [`loops`], in order.
fn find_loops(store: &TripleStore, p: u32) -> (out: Vec<u32>)
    requires
        store.wf(),
    ensures
        increasing(out@),
        members(out@) == loops(store.triples(), p),
{
    let ghost set = store.triples();
    let nodes: &[u32] = store.subjects_with_predicate(p);
    let mut out: Vec<u32> = Vec::new();
    let mut i: usize = 0;
    while i < nodes.len()
        invariant
            store.wf(),
            set == store.triples(),
            i <= nodes@.len(),
            increasing(nodes@),
            increasing(out@),
            forall|k: int| 0 <= k < out@.len() && i < nodes@.len() ==> #[trigger] out@[k] < nodes@[i as int],
            forall|v: u32| #[trigger]
                out@.contains(v) <==> nodes@.take(i as int).contains(v) && set.contains((v, p, v)),
        decreases nodes@.len() - i,
    {
        let v: u32 = nodes[i];
        let ghost before = out@;
        let found: bool = match store.query(Term::Bound(v), Term::Bound(p), Term::Bound(v)) {
            QueryResult::Exact(yes) => yes,
            _ => false,
        };
        if found {
            out.push(v);
        }
        proof {
            assert(found == set.contains((v, p, v)));
            assert(nodes@.take(i + 1) =~= nodes@.take(i as int).push(v));
            assert forall|x: u32| #[trigger] out@.contains(x) <==> nodes@.take(i + 1).contains(x)
                && set.contains((x, p, x)) by {
                crate::sorted::lemma_push_contains(nodes@.take(i as int), v, x);
                if found {
                    crate::sorted::lemma_push_contains(before, v, x);
                }
            }
        }
        i += 1;
    }
    proof {
        assert(nodes@.take(i as int) =~= nodes@);
        assert forall|v: u32| members(out@).contains(v) == loops(set, p).contains(v) by {
            if set.contains((v, p, v)) {
                assert(subjects_having(set, p).contains(v));
                assert(members(nodes@).contains(v));
            }
        }
        assert(members(out@) =~= loops(set, p));
    }
    out
}

/// The values of [`slice_for`], in order.
fn pattern_slice_for_var<'a>(store: &'a TripleStore, step: Step, col: usize, row: &[u32]) -> (r: Option<
    Cow<'a, [u32]>,
>)
    requires
        store.wf(),
        step_fits(step, row@.len()),
    ensures
        match r {
            Some(c) => increasing(c@) && slice_for(store.triples(), step, col as int, row@) == Some(
                members(c@),
            ),
            None => slice_for(store.triples(), step, col as int, row@) is None,
        },
{
    let ghost set = store.triples();
    let p: u32 = match step.p {
        Slot::Id(p) => p,
        Slot::Col(_) => {
            return None;
        },
    };
    if !store.has_predicate(p) {
        return None;
    }
    if step.s == Slot::Col(col) && step.o == Slot::Col(col) {
        Some(Cow::Owned(find_loops(store, p)))
    } else if step.s == Slot::Col(col) {
        match effective_term(row, step.o) {
            Term::Bound(o) => Some(store.subjects_of(p, o)),
            Term::Wildcard => Some(Cow::Borrowed(store.subjects_with_predicate(p))),
        }
    } else if step.o == Slot::Col(col) {
        match effective_term(row, step.s) {
            Term::Bound(s) => Some(store.objects_of(s, p)),
            Term::Wildcard => Some(store.objects_with_predicate(p)),
        }
    } else {
        None
    }
}

/// The values that are in every list.
pub open spec fn in_all(slices: Seq<Cow<'_, [u32]>>, v: u32) -> bool {
    forall|i: int| 0 <= i < slices.len() ==> (#[trigger] slices[i])@.contains(v)
}

/// The place of the shortest list.
fn shortest(slices: &Vec<Cow<'_, [u32]>>) -> (best: usize)
    requires
        slices@.len() > 0,
    ensures
        best < slices@.len(),
{
    let mut best: usize = 0;
    let mut i: usize = 1;
    while i < slices.len()
        invariant
            best < slices@.len(),
            i <= slices@.len(),
        decreases slices@.len() - i,
    {
        if crate::hypertrie::index::cow_len(&slices[i]) < crate::hypertrie::index::cow_len(&slices[best]) {
            best = i;
        }
        i += 1;
    }
    best
}

/// The common values of several increasing lists: every value of the shortest
/// one is looked up in the others.
fn leapfrog_intersect(slices: &Vec<Cow<'_, [u32]>>) -> (out: Vec<u32>)
    requires
        forall|i: int| 0 <= i < slices@.len() ==> increasing((#[trigger] slices@[i])@),
    ensures
        increasing(out@),
        forall|v: u32| #[trigger] out@.contains(v) <==> slices@.len() > 0 && in_all(slices@, v),
{
    let mut out: Vec<u32> = Vec::new();
    if slices.len() == 0 {
        return out;
    }
    let best: usize = shortest(slices);
    let first: &[u32] = cow_slice(&slices[best]);
    let mut k: usize = 0;
    while k < first.len()
        invariant
            forall|i: int| 0 <= i < slices@.len() ==> increasing((#[trigger] slices@[i])@),
            best < slices@.len(),
            first@ == slices@[best as int]@,
            k <= first@.len(),
            increasing(out@),
            forall|i: int| 0 <= i < out@.len() && k < first@.len() ==> #[trigger] out@[i] < first@[k as int],
            forall|v: u32| #[trigger] out@.contains(v) <==> first@.take(k as int).contains(v) && in_all(
                slices@,
                v,
            ),
        decreases first@.len() - k,
    {
        let v: u32 = first[k];
        let mut all: bool = true;
        let mut i: usize = 0;
        while i < slices.len() && all
            invariant
                forall|i: int| 0 <= i < slices@.len() ==> increasing((#[trigger] slices@[i])@),
                best < slices@.len(),
                first@ == slices@[best as int]@,
                k < first@.len(),
                v == first@[k as int],
                i <= slices@.len(),
                all ==> forall|j: int| 0 <= j < i ==> (#[trigger] slices@[j])@.contains(v),
                !all ==> !in_all(slices@, v),
            decreases slices@.len() - i + (if all { 1int } else { 0 }),
        {
            if i != best {
                match find(cow_slice(&slices[i]), v) {
                    Ok(_) => {},
                    Err(_) => {
                        all = false;
                        assert(!slices@[i as int]@.contains(v));
                    },
                }
            } else {
                assert(slices@[i as int]@.contains(v));
            }
            if all {
                i += 1;
            }
        }
        let ghost before = out@;
        assert(all ==> in_all(slices@, v));
        if all {
            out.push(v);
        }
        proof {
            assert(first@.take(k + 1) =~= first@.take(k as int).push(v));
            assert forall|x: u32| #[trigger] out@.contains(x) <==> first@.take(k + 1).contains(x)
                && in_all(slices@, x) by {
                crate::sorted::lemma_push_contains(first@.take(k as int), v, x);
                if all {
                    crate::sorted::lemma_push_contains(before, v, x);
                }
            }
        }
        k += 1;
    }
    proof {
        assert(first@.take(k as int) =~= first@);
        assert forall|v: u32| #[trigger] out@.contains(v) <==> slices@.len() > 0 && in_all(slices@, v) by {
            if in_all(slices@, v) {
                assert(slices@[best as int]@.contains(v));
            }
        }
    }
    out
}

/// The values of [`candidates`], in order.
fn leapfrog_candidates(store: &TripleStore, steps: &[Step], col: usize, row: &[u32]) -> (out: Vec<u32>)
    requires
        store.wf(),
        forall|i: int| 0 <= i < steps@.len() ==> step_fits(#[trigger] steps@[i], row@.len()),
    ensures
        out@ == in_order(candidates(store.triples(), steps@, col as int, row@)),
{
    let ghost set = store.triples();
    let mut slices: Vec<Cow<'_, [u32]>> = Vec::new();
    let mut i: usize = 0;
    while i < steps.len()
        invariant
            store.wf(),
            set == store.triples(),
            forall|i: int| 0 <= i < steps@.len() ==> step_fits(#[trigger] steps@[i], row@.len()),
            i <= steps@.len(),
            forall|j: int| 0 <= j < slices@.len() ==> increasing((#[trigger] slices@[j])@),
            (slices@.len() > 0) == exists|k: int|
                0 <= k < i && (#[trigger] slice_for(set, steps@[k], col as int, row@)) is Some,
            forall|v: u32| #[trigger]
                in_all(slices@, v) <==> forall|k: int|
                    0 <= k < i ==> #[trigger] allows(set, steps@, k, col as int, row@, v),
        decreases steps@.len() - i,
    {
        let ghost before = slices@;
        match pattern_slice_for_var(store, steps[i], col, row) {
            Some(c) => {
                let ghost cs = c@;
                slices.push(c);
                proof {
                    assert(slice_for(set, steps@[i as int], col as int, row@) is Some);
                    assert forall|v: u32| #[trigger] in_all(slices@, v) <==> forall|k: int|
                        0 <= k < i + 1 ==> #[trigger] allows(set, steps@, k, col as int, row@, v) by {
                        assert(allows(set, steps@, i as int, col as int, row@, v) == cs.contains(v));
                        assert(slices@[before.len() as int]@ == cs);
                        if in_all(slices@, v) {
                            assert forall|j: int| 0 <= j < before.len() implies (
                            #[trigger] before[j])@.contains(v) by {
                                assert(slices@[j] == before[j]);
                            }
                            assert(in_all(before, v));
                            assert(slices@[before.len() as int]@.contains(v));
                        }
                        if forall|k: int|
                            0 <= k < i + 1 ==> #[trigger] allows(set, steps@, k, col as int, row@, v) {
                            assert(allows(set, steps@, i as int, col as int, row@, v));
                            assert(in_all(before, v));
                        }
                    }
                }
            },
            None => {
                proof {
                    assert forall|v: u32| #[trigger] in_all(slices@, v) <==> forall|k: int|
                        0 <= k < i + 1 ==> #[trigger] allows(set, steps@, k, col as int, row@, v) by {
                        assert(allows(set, steps@, i as int, col as int, row@, v));
                    }
                }
            },
        }
        i += 1;
    }
    let out: Vec<u32> = leapfrog_intersect(&slices);
    proof {
        let want = candidates(set, steps@, col as int, row@);
        assert(members(out@) =~= want) by {
            assert forall|v: u32| members(out@).contains(v) <==> want.contains(v) by {
                assert(out@.contains(v) <==> slices@.len() > 0 && in_all(slices@, v));
            }
        }
        crate::sorted::lemma_in_order(out@);
    }
    out
}

/// Binds the columns from `depth` on, one after the other, and appends the
/// complete rows until there are `stop`.
fn wcoj_recurse(
    store: &TripleStore,
    steps: &[Step],
    depth: usize,
    binding: &mut Vec<u32>,
    out: &mut RowBlock,
    stop: usize,
)
    requires
        store.wf(),
        depth <= old(binding)@.len(),
        forall|i: int|
            0 <= i < steps@.len() ==> step_fits(#[trigger] steps@[i], old(binding)@.len()),
        forall|c: int| depth <= c < old(binding)@.len() ==> #[trigger] old(binding)@[c] == UNBOUND,
        old(out).wf(),
        old(out).width() == old(binding)@.len(),
        old(out)@.len() <= stop,
    ensures
        final(binding)@ == old(binding)@,
        final(out).wf(),
        final(out).width() == old(out).width(),
        final(out)@ == capped(
            old(out)@ + wcoj_from(store.triples(), steps@, old(binding)@, depth as int),
            stop as nat,
        ),
    decreases old(binding)@.len() - depth,
{
    let ghost set = store.triples();
    let ghost before = out@;
    let ghost row = binding@;
    if out.n_rows() >= stop {
        proof {
            lemma_capped_join(before, wcoj_from(set, steps@, row, depth as int), stop as nat);
        }
        return;
    }
    let width: usize = binding.len();
    if depth == width {
        out.push_row(binding.as_slice());
        assert(out@ =~= before + seq![row]);
        return;
    }
    let vals: Vec<u32> = leapfrog_candidates(store, steps, depth, binding.as_slice());
    let mut j: usize = 0;
    proof {
        assert(vals@.take(0) =~= Seq::<u32>::empty());
        assert(before + Seq::<Seq<u32>>::empty() =~= before);
    }
    while j < vals.len()
        invariant
            store.wf(),
            set == store.triples(),
            width == row.len(),
            width == old(binding)@.len(),
            depth < width,
            forall|i: int| 0 <= i < steps@.len() ==> step_fits(#[trigger] steps@[i], row.len()),
            forall|c: int| depth <= c < row.len() ==> #[trigger] row[c] == UNBOUND,
            binding@.len() == row.len(),
            binding@.update(depth as int, UNBOUND) == row,
            j <= vals@.len(),
            out.wf(),
            out.width() == width,
            out@.len() <= stop,
            out@ == capped(
                before + wcoj_over(set, steps@, row, vals@.take(j as int), depth as int),
                stop as nat,
            ),
        decreases vals@.len() - j,
    {
        let v: u32 = vals[j];
        binding.set(depth, v);
        proof {
            assert(binding@ =~= row.update(depth as int, v));
            let t0 = vals@.take(j as int);
            let t1 = vals@.take(j + 1);
            assert(t1.drop_last() =~= t0);
            assert(t1.last() == v);
            let a = before + wcoj_over(set, steps@, row, t0, depth as int);
            let b = wcoj_from(set, steps@, row.update(depth as int, v), depth + 1);
            lemma_capped_join(a, b, stop as nat);
            assert(a + b =~= before + wcoj_over(set, steps@, row, t1, depth as int));
        }
        wcoj_recurse(store, steps, depth + 1, binding, out, stop);
        proof {
            assert(binding@.update(depth as int, UNBOUND) =~= row);
        }
        j += 1;
    }
    binding.set(depth, UNBOUND);
    assert(vals@.take(j as int) =~= vals@);
}

/// Whether the worst-case optimal join, or the plan that stands in for it, stays
/// within the allowed number of rows.
pub open spec fn wcoj_fits(index: &Permutations, ps: Seq<PatTriple>, limit: Option<usize>, cap: usize) -> bool {
    if wcoj_applicable(index.triples(), ps) {
        capped(wcoj_rows(index.triples(), ps), stop_after(limit, cap)).len() <= cap
    } else {
        plan_fits(index.triples(), ps, greedy(index, ps, ps.len()), limit, cap)
    }
}

/// The rows of the worst-case optimal join; where it cannot be used, those of
/// the greedy plan.
pub open spec fn wcoj_or_plan_rows(index: &Permutations, ps: Seq<PatTriple>) -> Seq<Seq<u32>> {
    if wcoj_applicable(index.triples(), ps) {
        wcoj_rows(index.triples(), ps)
    } else {
        plan_rows(index.triples(), ps, greedy(index, ps, ps.len()))
    }
}

/// Executes a pattern by a worst-case optimal join; an error if the result has more
/// than `max_rows` rows, the number that
/// [`max_result_rows`](crate::hypertrie::max_result_rows) makes of the setting.
pub fn execute_wcoj(store: &TripleStore, pattern: &GraphPattern, max_rows: usize) -> (r: Result<
    RowBlock,
    String,
>)
    requires
        store.wf(),
    ensures
        match r {
            Ok(b) => wcoj_fits(&store.index, pattern@, None, max_rows) && b.wf() && b.width()
                == pattern_vars(pattern@).len() && b@ == capped(
                wcoj_or_plan_rows(&store.index, pattern@),
                stop_after(None, max_rows),
            ),
            Err(e) => !wcoj_fits(&store.index, pattern@, None, max_rows) && e@ == too_large_text(
                max_rows as nat,
            ),
        },
{
    execute_wcoj_limited(store, pattern, None, max_rows)
}

/// Executes a pattern by a worst-case optimal join: variable by variable, with
/// the values that all patterns allow. Patterns that do not join two variables
/// by a stored predicate are left to the greedy plan.
pub fn execute_wcoj_limited(
    store: &TripleStore,
    pattern: &GraphPattern,
    limit: Option<usize>,
    cap: usize,
) -> (r: Result<RowBlock, String>)
    requires
        store.wf(),
    ensures
        match r {
            Ok(b) => wcoj_fits(&store.index, pattern@, limit, cap) && b.wf() && b.width() == pattern_vars(
                pattern@,
            ).len() && b@ == capped(wcoj_or_plan_rows(&store.index, pattern@), stop_after(limit, cap)),
            Err(e) => !wcoj_fits(&store.index, pattern@, limit, cap) && e@ == too_large_text(cap as nat),
        },
{
    if !is_wcoj_applicable(pattern, store) {
        let plan: ExecutionPlan = pattern.optimize(&store.index);
        return execute_plan_limited(store, pattern, &plan, limit, cap);
    }
    let (steps, width) = compile(pattern);
    let stop: usize = stop_rows(limit, cap);
    let mut out: RowBlock = RowBlock::new(width);
    let mut binding: Vec<u32> = blank(width);
    wcoj_recurse(store, steps.as_slice(), 0, &mut binding, &mut out, stop);
    proof {
        let rows = wcoj_rows(store.triples(), pattern@);
        assert(Seq::<Seq<u32>>::empty() + rows =~= rows);
    }
    if out.n_rows() > cap {
        return Err(result_too_large(cap));
    }
    Ok(out)
}

/// The values of the first column, each of which begins a branch of the join
/// that can be computed on its own.
pub fn wcoj_first_values(store: &TripleStore, pattern: &GraphPattern) -> (vals: Vec<u32>)
    requires
        store.wf(),
        pattern_vars(pattern@).len() > 0,
    ensures
        vals@ == in_order(
            candidates(
                store.triples(),
                compiled(pattern@),
                0,
                blank_row(pattern_vars(pattern@).len()),
            ),
        ),
{
    let (steps, width) = compile(pattern);
    let row: Vec<u32> = blank(width);
    leapfrog_candidates(store, steps.as_slice(), 0, row.as_slice())
}

/// The rows of the branch that begins with `val`, at most `stop`.
pub fn wcoj_branch(store: &TripleStore, pattern: &GraphPattern, val: u32, stop: usize) -> (out: RowBlock)
    requires
        store.wf(),
        pattern_vars(pattern@).len() > 0,
    ensures
        out.wf(),
        out.width() == pattern_vars(pattern@).len(),
        out@ == capped(
            wcoj_from(
                store.triples(),
                compiled(pattern@),
                blank_row(pattern_vars(pattern@).len()).update(0, val),
                1,
            ),
            stop as nat,
        ),
{
    let (steps, width) = compile(pattern);
    let mut out: RowBlock = RowBlock::new(width);
    let mut binding: Vec<u32> = blank(width);
    binding.set(0, val);
    let ghost row = binding@;
    wcoj_recurse(store, steps.as_slice(), 1, &mut binding, &mut out, stop);
    proof {
        let rows = wcoj_from(store.triples(), compiled(pattern@), row, 1);
        assert(Seq::<Seq<u32>>::empty() + rows =~= rows);
    }
    out
}

} // verus!
