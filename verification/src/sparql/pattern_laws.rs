//! What patterns mean: which assignments of identifiers to names a basic graph
//! pattern and a path pattern give.

use crate::hypertrie::csr::IdTriple;
use crate::hypertrie::engine::{hybrid_rows, pattern_cyclic};
use crate::hypertrie::executor::{
    capped, compiled, compiled_term, lemma_place_bounds, place, stop_after, wcoj_applicable, UNBOUND,
};
use crate::hypertrie::join_laws::{
    clean, law_plan_gives_solutions, law_wcoj_gives_solutions, slot_value, solution, triple_under,
};
use crate::hypertrie::permutations::Permutations;
use crate::hypertrie::planner::{
    cost, greedy, law_greedy_is_permutation, law_pattern_vars, merged_names, mentions, pattern_vars,
    triple_vars, PatTerm, PatTriple,
};
use crate::hypertrie::stats::estimate;
use crate::inference::{lemma_columns_known, node_vars, projected_variables};
use crate::sorted::{in_order, lemma_in_order_of, members};
use crate::sparql::algebra::{NodeView, PathView, TripleView};
use crate::sparql::bgp::{bgp_outcome, id_triple, id_triples, node_term};
use crate::sparql::paths::{
    all_nodes, edge, image, linked, loop_rows, node_id, node_var, pair_rows, pairs_from, path_table,
    relation, singles,
};
use crate::sparql::table_laws::lemma_place_at;
use crate::sparql::tables::table_ok;
use vstd::prelude::*;

verus! {

/// An identifier for every name.
pub type Assignment = spec_fn(Seq<char>) -> u32;

/// The assignment that a row stands for.
pub open spec fn assigned(vars: Seq<Seq<char>>, row: Seq<u32>) -> Assignment {
    |n: Seq<char>| row[place(vars, n)]
}

/// The identifier at a pattern position; nothing for a term that the dictionary
/// does not have.
pub open spec fn node_value(keys: Seq<Seq<char>>, n: NodeView, env: Assignment) -> Option<u32> {
    match node_var(n) {
        Some(v) => Some(env(v)),
        None => node_id(keys, n),
    }
}

/// The triple that an assignment makes of a triple pattern is stored.
pub open spec fn holds_under(
    set: Set<IdTriple>,
    keys: Seq<Seq<char>>,
    t: TripleView,
    env: Assignment,
) -> bool {
    match (
        node_value(keys, t.subject, env),
        node_value(keys, t.predicate, env),
        node_value(keys, t.object, env),
    ) {
        (Some(s), Some(p), Some(o)) => set.contains((s, p, o)),
        _ => false,
    }
}

/// The columns of a triple pattern.
pub open spec fn triple_columns(t: TripleView) -> Seq<Seq<char>> {
    node_vars(t.subject) + node_vars(t.predicate) + node_vars(t.object)
}

/// What the planner estimates fits in a machine word, with room to spare.
pub open spec fn estimable(index: Permutations) -> bool {
    forall|s: PatTerm, p: PatTerm, o: PatTerm| #[trigger] estimate(&index, s, p, o) < usize::MAX
}

/// Names that are assigned the same give a triple pattern the same triple.
pub proof fn lemma_same_names(
    set: Set<IdTriple>,
    keys: Seq<Seq<char>>,
    t: TripleView,
    a: Assignment,
    b: Assignment,
)
    requires
        forall|n: Seq<char>| #[trigger] triple_columns(t).contains(n) ==> a(n) == b(n),
    ensures
        holds_under(set, keys, t, a) == holds_under(set, keys, t, b),
{
    let cols = triple_columns(t);
    let s = node_vars(t.subject);
    let p = node_vars(t.predicate);
    if let Some(n) = node_var(t.subject) {
        assert(cols[0] == n);
        assert(cols.contains(n));
    }
    if let Some(n) = node_var(t.predicate) {
        assert(cols[s.len() as int] == n);
        assert(cols.contains(n));
    }
    if let Some(n) = node_var(t.object) {
        assert(cols[(s.len() + p.len()) as int] == n);
        assert(cols.contains(n));
    }
}

// --- Basic graph patterns ----------------------------------------------------------

proof fn lemma_known(keys: Seq<Seq<char>>, ts: Seq<TripleView>)
    ensures
        match id_triples(keys, ts) {
            Some(ps) => ps.len() == ts.len() && forall|i: int|
                0 <= i < ts.len() ==> id_triple(keys, ts[i]) == Some(#[trigger] ps[i]),
            None => exists|i: int| 0 <= i < ts.len() && id_triple(keys, #[trigger] ts[i]) is None,
        },
    decreases ts.len(),
{
    if ts.len() > 0 {
        let rest = ts.drop_last();
        lemma_known(keys, rest);
        match id_triples(keys, ts) {
            Some(ps) => {
                let before = id_triples(keys, rest)->0;
                assert forall|i: int| 0 <= i < ts.len() implies id_triple(keys, ts[i]) == Some(
                    #[trigger] ps[i],
                ) by {
                    if i < rest.len() {
                        assert(before[i] == ps[i]);
                        assert(rest[i] == ts[i]);
                    }
                }
            },
            None => {
                if id_triples(keys, rest) is None {
                    let i = choose|i: int| 0 <= i < rest.len() && id_triple(keys, #[trigger] rest[i]) is None;
                    assert(ts[i] == rest[i]);
                } else {
                    assert(ts[ts.len() - 1] == ts.last());
                }
            },
        }
    }
}

/// A list of numbers below its length, each once, has all of them.
proof fn lemma_all_there(plan: Seq<int>, i: int)
    requires
        plan.no_duplicates(),
        forall|k: int| 0 <= k < plan.len() ==> 0 <= #[trigger] plan[k] < plan.len(),
        0 <= i < plan.len(),
    ensures
        plan.contains(i),
{
    let n = plan.len() as int;
    let all = vstd::set_lib::set_int_range(0, n);
    vstd::set_lib::lemma_int_range(0, n);
    plan.unique_seq_to_set();
    if !plan.contains(i) {
        assert(plan.to_set().subset_of(all.remove(i)));
        vstd::set_lib::lemma_len_subset(plan.to_set(), all.remove(i));
    }
}

/// Execution gives exactly the solutions, whichever way it takes.
proof fn lemma_hybrid(index: Permutations, ps: Seq<PatTriple>)
    requires
        clean(index.triples()),
        estimable(index),
        pattern_vars(ps).len() <= usize::MAX,
    ensures
        forall|r: Seq<u32>| #[trigger]
            hybrid_rows(&index, ps).contains(r) <==> solution(index.triples(), ps, r),
        hybrid_rows(&index, ps).no_duplicates(),
{
    let set = index.triples();
    if pattern_cyclic(ps) && wcoj_applicable(set, ps) {
        law_wcoj_gives_solutions(set, ps);
    } else {
        assert forall|i: int| 0 <= i < ps.len() implies #[trigger] cost(&index, ps, i) < usize::MAX by {
            assert(estimate(&index, ps[i].subject, ps[i].predicate, ps[i].object) < usize::MAX);
        }
        law_greedy_is_permutation(&index, ps, ps.len());
        let plan = greedy(&index, ps, ps.len());
        assert forall|i: int| 0 <= i < ps.len() implies #[trigger] plan.contains(i) by {
            lemma_all_there(plan, i);
        }
        law_plan_gives_solutions(set, ps, plan);
    }
}

/// A compiled position has the value that the row assigns.
proof fn lemma_slot(keys: Seq<Seq<char>>, vars: Seq<Seq<char>>, n: NodeView, row: Seq<u32>)
    requires
        vars.len() <= usize::MAX,
        node_term(keys, n) is Some,
    ensures
        node_value(keys, n, assigned(vars, row)) == Some(
            slot_value(compiled_term(vars, node_term(keys, n)->0), row),
        ),
{
    if let Some(v) = node_var(n) {
        lemma_place_bounds(vars, v);
    }
}

/// A row solves the patterns exactly if all triples hold under it.
proof fn lemma_solution(
    set: Set<IdTriple>,
    keys: Seq<Seq<char>>,
    ts: Seq<TripleView>,
    row: Seq<u32>,
)
    requires
        clean(set),
        id_triples(keys, ts) is Some,
        projected_variables(ts).len() <= usize::MAX,
    ensures
        solution(set, id_triples(keys, ts)->0, row) <==> {
            &&& row.len() == projected_variables(ts).len()
            &&& forall|i: int|
                0 <= i < ts.len() ==> holds_under(
                    set,
                    keys,
                    #[trigger] ts[i],
                    assigned(projected_variables(ts), row),
                )
        },
{
    let ps = id_triples(keys, ts)->0;
    let vars = projected_variables(ts);
    let env = assigned(vars, row);
    lemma_known(keys, ts);
    lemma_columns_known(keys, ts);
    assert forall|i: int| 0 <= i < ts.len() implies holds_under(set, keys, #[trigger] ts[i], env)
        == set.contains(triple_under(compiled(ps)[i], row)) by {
        assert(id_triple(keys, ts[i]) == Some(ps[i]));
        lemma_slot(keys, vars, ts[i].subject, row);
        lemma_slot(keys, vars, ts[i].predicate, row);
        lemma_slot(keys, vars, ts[i].object, row);
    }
    if solution(set, ps, row) {
        assert forall|i: int| 0 <= i < ts.len() implies holds_under(set, keys, #[trigger] ts[i], env) by {
            assert(set.contains(triple_under(compiled(ps)[i], row)));
        }
    }
    if row.len() == vars.len() && forall|i: int|
        0 <= i < ts.len() ==> holds_under(set, keys, #[trigger] ts[i], env) {
        assert forall|i: int| 0 <= i < ps.len() implies set.contains(
            triple_under(#[trigger] compiled(ps)[i], row),
        ) by {
            assert(holds_under(set, keys, ts[i], env));
        }
        assert forall|c: int| 0 <= c < row.len() implies #[trigger] row[c] != UNBOUND by {
            lemma_bound(set, keys, ts, row, c);
        }
    }
}

/// No column of a solution is unbound.
proof fn lemma_bound(set: Set<IdTriple>, keys: Seq<Seq<char>>, ts: Seq<TripleView>, row: Seq<u32>, c: int)
    requires
        clean(set),
        id_triples(keys, ts) is Some,
        forall|i: int|
            0 <= i < ts.len() ==> holds_under(
                set,
                keys,
                #[trigger] ts[i],
                assigned(projected_variables(ts), row),
            ),
        0 <= c < projected_variables(ts).len(),
    ensures
        row[c] != UNBOUND,
{
    let ps = id_triples(keys, ts)->0;
    let vars = projected_variables(ts);
    let env = assigned(vars, row);
    lemma_known(keys, ts);
    lemma_columns_known(keys, ts);
    law_pattern_vars(ps);
    let n = vars[c];
    lemma_place_at(vars, c);
    assert(vars.contains(n));
    assert(mentions(ps, n));
    let i = choose|i: int| 0 <= i < ps.len() && triple_vars(#[trigger] ps[i]).contains(n);
    assert(id_triple(keys, ts[i]) == Some(ps[i]));
    assert(holds_under(set, keys, ts[i], env));
    let tv = triple_vars(ps[i]);
    let k = choose|k: int| 0 <= k < tv.len() && tv[k] == n;
    assert(node_var(ts[i].subject) == Some(n) || node_var(ts[i].predicate) == Some(n) || node_var(
        ts[i].object,
    ) == Some(n));
    assert(env(n) == row[c]);
    let t = (
        node_value(keys, ts[i].subject, env)->0,
        node_value(keys, ts[i].predicate, env)->0,
        node_value(keys, ts[i].object, env)->0,
    );
    assert(set.contains(t));
}

/// A basic graph pattern gives exactly the rows under which all its triples are
/// stored, each once. One without triples gives the row in which nothing is bound.
pub proof fn law_bgp(index: Permutations, keys: Seq<Seq<char>>, ts: Seq<TripleView>, cap: usize)
    requires
        clean(index.triples()),
        estimable(index),
        projected_variables(ts).len() <= usize::MAX,
        cap < usize::MAX,
        bgp_outcome(index, keys, ts, None, cap) is Ok,
    ensures
        ({
            let t = bgp_outcome(index, keys, ts, None, cap)->Ok_0;
            let vars = projected_variables(ts);
            &&& table_ok(t)
            &&& t.rows.len() > 0 ==> t.vars == vars
            &&& t.rows.no_duplicates()
            &&& forall|row: Seq<u32>| #[trigger]
                t.rows.contains(row) <==> {
                    &&& row.len() == vars.len()
                    &&& forall|i: int|
                        0 <= i < ts.len() ==> holds_under(
                            index.triples(),
                            keys,
                            #[trigger] ts[i],
                            assigned(vars, row),
                        )
                }
        }),
{
    let t = bgp_outcome(index, keys, ts, None, cap)->Ok_0;
    let vars = projected_variables(ts);
    let set = index.triples();
    lemma_known(keys, ts);
    match id_triples(keys, ts) {
        Some(ps) => {
            lemma_columns_known(keys, ts);
            lemma_hybrid(index, ps);
            assert(t.rows == capped(hybrid_rows(&index, ps), stop_after(None, cap)));
            assert(t.rows == hybrid_rows(&index, ps));
            assert forall|row: Seq<u32>| #[trigger] t.rows.contains(row) <==> {
                &&& row.len() == vars.len()
                &&& forall|i: int|
                    0 <= i < ts.len() ==> holds_under(set, keys, #[trigger] ts[i], assigned(vars, row))
            } by {
                lemma_solution(set, keys, ts, row);
            }
            assert forall|k: int| 0 <= k < t.rows.len() implies (#[trigger] t.rows[k]).len()
                == t.vars.len() by {
                assert(t.rows.contains(t.rows[k]));
            }
        },
        None => {
            let i = choose|i: int| 0 <= i < ts.len() && id_triple(keys, #[trigger] ts[i]) is None;
            assert forall|row: Seq<u32>| #[trigger] t.rows.contains(row) <==> {
                &&& row.len() == vars.len()
                &&& forall|j: int|
                    0 <= j < ts.len() ==> holds_under(set, keys, #[trigger] ts[j], assigned(vars, row))
            } by {
                assert(!holds_under(set, keys, ts[i], assigned(vars, row)));
            }
        },
    }
}

// --- Path patterns -----------------------------------------------------------------

/// There are only so many identifiers.
pub proof fn lemma_ids_finite(s: Set<u32>)
    ensures
        s.finite(),
{
    let all = vstd::set_lib::set_int_range(0, 0x1_0000_0000);
    let f = |i: int| i as u32;
    vstd::set_lib::lemma_int_range(0, 0x1_0000_0000);
    all.lemma_map_finite(f);
    assert forall|x: u32| s.contains(x) implies all.map(f).contains(x) by {
        assert(all.contains(x as int));
        assert(f(x as int) == x);
    }
    vstd::set_lib::lemma_set_subset_finite(all.map(f), s);
}

/// The list of a set has exactly its members.
proof fn lemma_listed(s: Set<u32>, x: u32)
    ensures
        in_order(s).contains(x) <==> s.contains(x),
{
    lemma_ids_finite(s);
    lemma_in_order_of(s);
    assert(members(in_order(s)).contains(x) <==> in_order(s).contains(x));
}

proof fn lemma_singles(nodes: Seq<u32>, row: Seq<u32>)
    ensures
        singles(nodes).contains(row) <==> row.len() == 1 && nodes.contains(row[0]),
{
    if singles(nodes).contains(row) {
        let k = choose|k: int| 0 <= k < nodes.len() && singles(nodes)[k] == row;
        assert(nodes[k] == row[0]);
    }
    if row.len() == 1 && nodes.contains(row[0]) {
        let k = choose|k: int| 0 <= k < nodes.len() && nodes[k] == row[0];
        assert(singles(nodes)[k] =~= row);
    }
}

proof fn lemma_image(r: spec_fn(u32, u32) -> bool, a: u32, forward: bool, b: u32)
    ensures
        image(r, set![a], forward).contains(b) <==> edge(r, forward, a, b),
{
    if edge(r, forward, a, b) {
        assert(set![a].contains(a));
    }
}

proof fn lemma_pairs(r: spec_fn(u32, u32) -> bool, starts: Seq<u32>, row: Seq<u32>)
    ensures
        pair_rows(r, starts).contains(row) <==> row.len() == 2 && starts.contains(row[0]) && r(
            row[0],
            row[1],
        ),
    decreases starts.len(),
{
    let all = pair_rows(r, starts);
    if starts.len() > 0 {
        let rest = starts.drop_last();
        let a = starts.last();
        lemma_pairs(r, rest, row);
        let before = pair_rows(r, rest);
        let ends = in_order(image(r, set![a], true));
        let own = pairs_from(a, ends);
        assert(all == before + own);
        if all.contains(row) {
            let c = choose|c: int| 0 <= c < all.len() && all[c] == row;
            if c < before.len() {
                assert(before[c] == row);
                let k = choose|k: int| 0 <= k < rest.len() && rest[k] == row[0];
                assert(starts[k] == row[0]);
            } else {
                let k = c - before.len();
                assert(own[k] == row);
                assert(ends.contains(row[1]));
                lemma_listed(image(r, set![a], true), row[1]);
                lemma_image(r, a, true, row[1]);
                assert(starts[starts.len() - 1] == row[0]);
            }
        }
        if row.len() == 2 && starts.contains(row[0]) && r(row[0], row[1]) {
            if row[0] == a {
                lemma_listed(image(r, set![a], true), row[1]);
                lemma_image(r, a, true, row[1]);
                let k = choose|k: int| 0 <= k < ends.len() && ends[k] == row[1];
                assert(own[k] =~= row);
                assert(all[before.len() + k] == row);
            } else {
                let k = choose|k: int| 0 <= k < starts.len() && starts[k] == row[0];
                assert(rest[k] == row[0]);
                let c = choose|c: int| 0 <= c < before.len() && before[c] == row;
                assert(all[c] == row);
            }
        }
    }
}

proof fn lemma_loops(r: spec_fn(u32, u32) -> bool, starts: Seq<u32>, row: Seq<u32>)
    ensures
        loop_rows(r, starts).contains(row) <==> row.len() == 1 && starts.contains(row[0]) && r(
            row[0],
            row[0],
        ),
    decreases starts.len(),
{
    let all = loop_rows(r, starts);
    if starts.len() > 0 {
        let rest = starts.drop_last();
        let a = starts.last();
        lemma_loops(r, rest, row);
        let before = loop_rows(r, rest);
        if all.contains(row) {
            let c = choose|c: int| 0 <= c < all.len() && all[c] == row;
            if c < before.len() {
                assert(before[c] == row);
                let k = choose|k: int| 0 <= k < rest.len() && rest[k] == row[0];
                assert(starts[k] == row[0]);
            } else {
                assert(starts[starts.len() - 1] == row[0]);
            }
        }
        if row.len() == 1 && starts.contains(row[0]) && r(row[0], row[0]) {
            if row[0] == a {
                assert(all[all.len() - 1] =~= row);
            } else {
                let k = choose|k: int| 0 <= k < starts.len() && starts[k] == row[0];
                assert(rest[k] == row[0]);
                let c = choose|c: int| 0 <= c < before.len() && before[c] == row;
                assert(all[c] == row);
            }
        }
    }
}

/// A path pattern gives exactly the rows under which the path leads from its
/// subject to its object. Where neither is given, the path must begin at a node
/// of the store.
pub proof fn law_path_pattern(
    index: Permutations,
    keys: Seq<Seq<char>>,
    s: NodeView,
    p: PathView,
    o: NodeView,
    row: Seq<u32>,
)
    ensures
        ({
            let t = path_table(index, keys, s, p, o);
            let env = assigned(t.vars, row);
            &&& t.vars == merged_names(node_vars(s), node_vars(o))
            &&& t.rows.contains(row) <==> {
                &&& row.len() == t.vars.len()
                &&& match (node_value(keys, s, env), node_value(keys, o, env)) {
                    (Some(a), Some(b)) => linked(index.triples(), keys, p, a, b) && (node_var(s) is Some
                        && node_var(o) is Some ==> index.subject_keys().union(
                        index.object_keys(),
                    ).contains(a)),
                    _ => false,
                }
            }
        }),
{
    let t = path_table(index, keys, s, p, o);
    let r = relation(index.triples(), keys, p);
    reveal_with_fuel(merged_names, 3);
    match (node_var(s), node_var(o)) {
        (None, None) => {
            assert(t.vars =~= merged_names(node_vars(s), node_vars(o)));
            if row.len() == 0 {
                assert(row =~= Seq::<u32>::empty());
                if t.rows.len() > 0 {
                    assert(t.rows[0] == row);
                }
            }
        },
        (None, Some(v)) => {
            assert(seq![v].drop_last() =~= Seq::<Seq<char>>::empty());
            assert(t.vars =~= merged_names(node_vars(s), node_vars(o)));
            lemma_place_at(t.vars, 0);
            if let Some(a) = node_id(keys, s) {
                lemma_singles(in_order(image(r, set![a], true)), row);
                lemma_listed(image(r, set![a], true), row[0]);
                lemma_image(r, a, true, row[0]);
            }
        },
        (Some(v), None) => {
            assert(t.vars =~= merged_names(node_vars(s), node_vars(o)));
            lemma_place_at(t.vars, 0);
            if let Some(b) = node_id(keys, o) {
                lemma_singles(in_order(image(r, set![b], false)), row);
                lemma_listed(image(r, set![b], false), row[0]);
                lemma_image(r, b, false, row[0]);
            }
        },
        (Some(v), Some(w)) => {
            assert(seq![w].drop_last() =~= Seq::<Seq<char>>::empty());
            assert(seq![v].contains(w) == (v == w)) by {
                assert(seq![v][0] == v);
            }
            let nodes = index.subject_keys().union(index.object_keys());
            lemma_listed(nodes, row[0]);
            if v == w {
                assert(t.vars =~= merged_names(node_vars(s), node_vars(o)));
                lemma_place_at(t.vars, 0);
                lemma_loops(r, all_nodes(index), row);
            } else {
                assert(t.vars =~= merged_names(node_vars(s), node_vars(o)));
                lemma_place_at(t.vars, 0);
                lemma_place_at(t.vars, 1);
                lemma_pairs(r, all_nodes(index), row);
            }
        },
    }
}

} // verus!
