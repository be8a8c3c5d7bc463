//! What inference finds: exactly the solutions in which every triple is stored,
//! but for at most one that follows from stored ones by a rule.

use crate::hypertrie::csr::IdTriple;
use crate::hypertrie::executor::{lemma_place_bounds, place};
use crate::hypertrie::join_laws::clean;
use crate::hypertrie::permutations::Permutations;
use crate::hypertrie::planner::{lemma_merged_names, merged_names};
use crate::hypertrie::rows::{law_rows_in_order, row_lt, row_lt_from, rows_in_order, sliced};
use crate::inference::{
    alternatives, asks_type, branch_pattern, branches_of, declaration_branch, declaration_path,
    declared_by, fresh_name, inferred_bgp, lemma_columns_known, next_number, node_vars, one_or_more,
    projected_variables, rdf_type, rewritten, sub_class_of, sub_property_branch, sub_property_of,
    super_class_branch, BranchView,
};
use crate::sparql::algebra::{PathView, PatternView, TripleView};
use crate::sparql::bgp::{bgp_columns, bgp_outcome, id_triples, own_vars, variables_of};
use crate::sparql::modifiers::{columns, first_missing, peeled, projected};
use crate::sparql::paths::{chain, composed, iri_id, linked, node_var, path_table, relation, repeated};
use crate::sparql::pattern_laws::{
    assigned, estimable, holds_under, law_bgp, law_path_pattern, lemma_same_names,
    node_value, triple_columns, Assignment,
};
use crate::sparql::run::with_inference;
use crate::sparql::solve::{solved, Setting};
use crate::sparql::solve_laws::law_nothing_to_join;
use crate::sparql::table_laws::{
    law_join, law_union, lemma_join_nothing, lemma_join_vars, lemma_place_at, shows,
};
use crate::sparql::tables::{aligned, any_row, join_tables, join_vars, table_ok, Table};
use vstd::prelude::*;

verus! {

// --- The rules -----------------------------------------------------------------------

/// The entity has a type that is, over one step or more, a subclass of `class`.
pub open spec fn by_super_class(
    set: Set<IdTriple>,
    keys: Seq<Seq<char>>,
    entity: u32,
    class: u32,
) -> bool {
    exists|c: u32|
        #![trigger linked(set, keys, one_or_more(sub_class_of()), c, class)]
        iri_id(keys, rdf_type()) is Some && set.contains((entity, iri_id(keys, rdf_type())->0, c))
            && linked(set, keys, one_or_more(sub_class_of()), c, class)
}

/// The entity is the subject, or the object, of a triple with predicate `p`.
pub open spec fn takes_part(set: Set<IdTriple>, subject: bool, entity: u32, p: u32) -> bool {
    if subject {
        exists|x: u32| set.contains((entity, p, x))
    } else {
        exists|x: u32| set.contains((x, p, entity))
    }
}

/// The entity takes part in a triple whose predicate, or one that it is a
/// sub-property of, declares a domain, or a range, that is `class` or a subclass
/// of it.
pub open spec fn by_declaration(
    set: Set<IdTriple>,
    keys: Seq<Seq<char>>,
    domain: bool,
    entity: u32,
    class: u32,
) -> bool {
    exists|p: u32|
        #![trigger linked(set, keys, declaration_path(domain), p, class)]
        takes_part(set, domain, entity, p) && linked(set, keys, declaration_path(domain), p, class)
}

/// The triple is stored with a predicate that is, over one step or more, a
/// sub-property of `p`.
pub open spec fn by_sub_property(
    set: Set<IdTriple>,
    keys: Seq<Seq<char>>,
    s: u32,
    p: u32,
    o: u32,
) -> bool {
    exists|q: u32|
        #![trigger linked(set, keys, one_or_more(sub_property_of()), q, p)]
        set.contains((s, q, o)) && linked(set, keys, one_or_more(sub_property_of()), q, p)
}

/// The triple that an assignment makes of a triple pattern follows from stored
/// ones by a rule.
pub open spec fn follows(
    set: Set<IdTriple>,
    keys: Seq<Seq<char>>,
    t: TripleView,
    env: Assignment,
) -> bool {
    let s = node_value(keys, t.subject, env);
    let p = node_value(keys, t.predicate, env);
    let o = node_value(keys, t.object, env);
    &&& s is Some
    &&& o is Some
    &&& if asks_type(t) {
        ||| by_super_class(set, keys, s->0, o->0)
        ||| by_declaration(set, keys, true, s->0, o->0)
        ||| by_declaration(set, keys, false, s->0, o->0)
    } else {
        p is Some && by_sub_property(set, keys, s->0, p->0, o->0)
    }
}

/// All triples but number `i` are stored.
pub open spec fn others_hold(
    set: Set<IdTriple>,
    keys: Seq<Seq<char>>,
    ts: Seq<TripleView>,
    env: Assignment,
    i: int,
) -> bool {
    forall|j: int| 0 <= j < ts.len() && j != i ==> holds_under(set, keys, #[trigger] ts[j], env)
}

/// All triples are stored, or all but one, which follows from stored ones.
pub open spec fn entailed(
    set: Set<IdTriple>,
    keys: Seq<Seq<char>>,
    ts: Seq<TripleView>,
    env: Assignment,
) -> bool {
    ||| forall|i: int| 0 <= i < ts.len() ==> holds_under(set, keys, #[trigger] ts[i], env)
    ||| exists|i: int|
        0 <= i < ts.len() && follows(set, keys, #[trigger] ts[i], env) && others_hold(
            set,
            keys,
            ts,
            env,
            i,
        )
}

/// The pattern uses no name that is made for an alternative.
pub open spec fn names_free(ts: Seq<TripleView>) -> bool {
    forall|kind: Seq<char>, n: u64| !projected_variables(ts).contains(#[trigger] fresh_name(kind, n))
}

// --- Columns -------------------------------------------------------------------------

/// The columns of a basic graph pattern are those of its triples, each once.
proof fn lemma_columns(ts: Seq<TripleView>)
    ensures
        projected_variables(ts).no_duplicates(),
        forall|n: Seq<char>| #[trigger]
            projected_variables(ts).contains(n) <==> exists|i: int|
                0 <= i < ts.len() && triple_columns(#[trigger] ts[i]).contains(n),
    decreases ts.len(),
{
    let all = projected_variables(ts);
    if ts.len() > 0 {
        let rest = ts.drop_last();
        lemma_columns(rest);
        lemma_merged_names(projected_variables(rest), triple_columns(ts.last()));
        assert forall|n: Seq<char>| #[trigger] all.contains(n) <==> exists|i: int|
            0 <= i < ts.len() && triple_columns(#[trigger] ts[i]).contains(n) by {
            assert(all.contains(n) <==> projected_variables(rest).contains(n) || triple_columns(
                ts.last(),
            ).contains(n));
            if projected_variables(rest).contains(n) {
                let i = choose|i: int|
                    0 <= i < rest.len() && triple_columns(#[trigger] rest[i]).contains(n);
                assert(ts[i] == rest[i]);
            }
            if triple_columns(ts.last()).contains(n) {
                assert(ts[ts.len() - 1] == ts.last());
            }
            if exists|i: int| 0 <= i < ts.len() && triple_columns(#[trigger] ts[i]).contains(n) {
                let i = choose|i: int| 0 <= i < ts.len() && triple_columns(#[trigger] ts[i]).contains(n);
                if i < rest.len() {
                    assert(rest[i] == ts[i]);
                }
            }
        }
    }
}

proof fn lemma_column_of(ts: Seq<TripleView>, i: int, n: Seq<char>)
    requires
        0 <= i < ts.len(),
        triple_columns(ts[i]).contains(n),
    ensures
        projected_variables(ts).contains(n),
{
    lemma_columns(ts);
}

/// The columns of a triple pattern are those of its positions.
proof fn lemma_positions(t: TripleView, n: Seq<char>)
    ensures
        triple_columns(t).contains(n) <==> node_var(t.subject) == Some(n) || node_var(t.predicate)
            == Some(n) || node_var(t.object) == Some(n),
{
    let cols = triple_columns(t);
    let a = node_vars(t.subject).len() as int;
    let b = node_vars(t.predicate).len() as int;
    if node_var(t.subject) == Some(n) {
        assert(cols[0] == n);
    }
    if node_var(t.predicate) == Some(n) {
        assert(cols[a] == n);
    }
    if node_var(t.object) == Some(n) {
        assert(cols[a + b] == n);
    }
}

/// No more names than there are to choose from.
proof fn lemma_fewer(a: Seq<Seq<char>>, b: Seq<Seq<char>>)
    requires
        a.no_duplicates(),
        forall|n: Seq<char>| a.contains(n) ==> #[trigger] b.contains(n),
    ensures
        a.len() <= b.len(),
{
    a.unique_seq_to_set();
    b.lemma_cardinality_of_set();
    assert(a.to_set().subset_of(b.to_set())) by {
        assert forall|n: Seq<char>| a.to_set().contains(n) implies b.to_set().contains(n) by {
            assert(a.contains(n));
            assert(b.contains(n));
        }
    }
    vstd::set_lib::lemma_len_subset(a.to_set(), b.to_set());
}

/// A part of a row assigns what the row assigns.
proof fn lemma_part(own: Seq<Seq<char>>, wide: Seq<Seq<char>>, row: Seq<u32>, n: Seq<char>)
    requires
        own.contains(n),
        wide.contains(n),
    ensures
        assigned(own, aligned(own, wide, row))(n) == assigned(wide, row)(n),
{
    lemma_place_bounds(own, n);
    lemma_place_bounds(wide, n);
}

// --- One alternative -----------------------------------------------------------------

/// The row has the values of the assignment.
spec fn agrees(v: Seq<Seq<char>>, row: Seq<u32>, env: Assignment) -> bool {
    row.len() == v.len() && forall|c: int| 0 <= c < v.len() ==> #[trigger] row[c] == env(v[c])
}

/// The path of the alternative leads where it must, and its triples are stored.
spec fn branch_holds(set: Set<IdTriple>, keys: Seq<Seq<char>>, b: BranchView, env: Assignment) -> bool {
    &&& match (node_value(keys, b.subject, env), node_value(keys, b.object, env)) {
        (Some(x), Some(y)) => linked(set, keys, b.path, x, y),
        _ => false,
    }
    &&& forall|j: int|
        0 <= j < b.patterns.len() ==> holds_under(set, keys, #[trigger] b.patterns[j], env)
}

/// The path only begins at nodes of the store.
spec fn starts_at_nodes(index: Permutations, keys: Seq<Seq<char>>, p: PathView) -> bool {
    forall|x: u32, y: u32| #[trigger]
        linked(index.triples(), keys, p, x, y) ==> index.subject_keys().union(
            index.object_keys(),
        ).contains(x)
}

/// What an alternative can be evaluated with.
spec fn branch_ok(index: Permutations, keys: Seq<Seq<char>>, b: BranchView, v: Seq<Seq<char>>) -> bool {
    &&& b.subject is Variable
    &&& node_var(b.object) != node_var(b.subject)
    &&& starts_at_nodes(index, keys, b.path)
    &&& projected_variables(b.patterns).len() <= v.len() + 2
    &&& v.len() + 2 <= usize::MAX
    &&& v.no_duplicates()
    &&& forall|n: Seq<char>|
        v.contains(n) ==> #[trigger] projected_variables(b.patterns).contains(n) || node_var(b.object)
            == Some(n)
}

spec fn path_vars(b: BranchView) -> Seq<Seq<char>> {
    merged_names(node_vars(b.subject), node_vars(b.object))
}

proof fn lemma_path_vars(b: BranchView)
    requires
        b.subject is Variable,
        node_var(b.object) != node_var(b.subject),
    ensures
        path_vars(b).no_duplicates(),
        path_vars(b).len() <= 2,
        forall|n: Seq<char>| #[trigger]
            path_vars(b).contains(n) <==> node_var(b.subject) == Some(n) || node_var(b.object) == Some(n),
{
    reveal_with_fuel(merged_names, 3);
    lemma_merged_names(node_vars(b.subject), node_vars(b.object));
    let x = node_vars(b.subject);
    let y = node_vars(b.object);
    assert(x.no_duplicates());
    assert forall|n: Seq<char>| #[trigger] path_vars(b).contains(n) <==> node_var(b.subject) == Some(n)
        || node_var(b.object) == Some(n) by {
        if node_var(b.subject) == Some(n) {
            assert(x[0] == n);
        }
        if node_var(b.object) == Some(n) {
            assert(y[0] == n);
        }
    }
}

/// What an alternative gives shows exactly the rows for which its path and its
/// triples hold.
proof fn lemma_branch(s: Setting, keys: Seq<Seq<char>>, b: BranchView, v: Seq<Seq<char>>, row: Seq<u32>)
    requires
        clean(s.index.triples()),
        estimable(s.index),
        s.cap < usize::MAX,
        branch_ok(s.index, keys, b, v),
        solved(s, keys, branch_pattern(b), None).0 is Ok,
    ensures
        shows(solved(s, keys, branch_pattern(b), None).0->Ok_0, v, row) <==> exists|env: Assignment|
            agrees(v, row, env) && #[trigger] branch_holds(s.index.triples(), keys, b, env),
{
    let set = s.index.triples();
    let t = solved(s, keys, branch_pattern(b), None).0->Ok_0;
    lemma_path_vars(b);
    let pv = path_vars(b);
    let bv = projected_variables(b.patterns);
    let jv = join_vars(pv, bv);
    lemma_columns(b.patterns);
    lemma_join_vars(pv, bv);
    assert forall|c: int| 0 <= c < v.len() implies jv.contains(#[trigger] v[c]) by {
        assert(v.contains(v[c]));
        assert(bv.contains(v[c]) || node_var(b.object) == Some(v[c]));
        assert(pv.contains(v[c]) || bv.contains(v[c]));
    }
    if shows(t, v, row) {
        let k = choose|k: int| 0 <= k < t.rows.len() && aligned(v, t.vars, #[trigger] t.rows[k]) == row;
        let wide = t.rows[k];
        assert(t.rows.contains(wide));
        lemma_shown(s, keys, b, v, wide);
        let env = assigned(jv, wide);
        lemma_agrees(v, jv, wide, env);
        assert(agrees(v, row, env));
    }
    if exists|env: Assignment| agrees(v, row, env) && #[trigger] branch_holds(set, keys, b, env) {
        let env = choose|env: Assignment|
            agrees(v, row, env) && #[trigger] branch_holds(set, keys, b, env);
        let wide = Seq::new(jv.len(), |c: int| env(jv[c]));
        lemma_found(s, keys, b, v, env);
        lemma_shown(s, keys, b, v, wide);
        let k = choose|k: int| 0 <= k < t.rows.len() && t.rows[k] == wide;
        assert forall|c: int| 0 <= c < v.len() implies aligned(v, jv, wide)[c] == row[c] by {
            lemma_place_bounds(jv, v[c]);
        }
        assert(aligned(v, jv, wide) =~= row);
        assert(aligned(v, t.vars, t.rows[k]) == row);
    }
}

proof fn lemma_agrees(v: Seq<Seq<char>>, wide: Seq<Seq<char>>, row: Seq<u32>, env: Assignment)
    requires
        env == assigned(wide, row),
        forall|c: int| 0 <= c < v.len() ==> wide.contains(#[trigger] v[c]),
    ensures
        agrees(v, aligned(v, wide, row), env),
{
    assert forall|c: int| 0 <= c < v.len() implies #[trigger] aligned(v, wide, row)[c] == env(v[c]) by {
        lemma_place_bounds(wide, v[c]);
    }
}

/// Where the path of an alternative leads nowhere, the alternative gives no row
/// and its triples are not read. Elsewhere it joins the two.
proof fn lemma_path_first(s: Setting, keys: Seq<Seq<char>>, b: BranchView)
    ensures
        ({
            let l = path_table(s.index, keys, b.subject, b.path, b.object);
            let r = bgp_outcome(s.index, keys, b.patterns, None, s.cap);
            let (out, k) = solved(s, keys, branch_pattern(b), None);
            &&& k == keys
            &&& l.rows.len() == 0 ==> out == Ok::<Table, Seq<char>>(
                Table { vars: join_vars(l.vars, bgp_columns(keys, b.patterns)), rows: Seq::empty() },
            )
            &&& l.rows.len() > 0 && out is Ok ==> r is Ok && out->Ok_0 == join_tables(
                l,
                r->Ok_0,
                any_row(),
                false,
            )
        }),
{
    let path = PatternView::Path(b.subject, b.path, b.object);
    let l = path_table(s.index, keys, b.subject, b.path, b.object);
    reveal_with_fuel(solved, 2);
    assert(solved(s, keys, path, None).0 is Ok ==> solved(s, keys, path, None).0->Ok_0 == l);
    if l.rows.len() == 0 {
        law_nothing_to_join(s, keys, path, b.patterns, None);
    }
}

/// An alternative whose path leads nowhere gives no row, and its triples are not
/// read: it succeeds, however many rows they would give.
pub proof fn law_empty_schema(s: Setting, keys: Seq<Seq<char>>, b: BranchView)
    requires
        path_table(s.index, keys, b.subject, b.path, b.object).rows.len() == 0,
    ensures
        solved(s, keys, branch_pattern(b), None).0 is Ok,
        (solved(s, keys, branch_pattern(b), None).0->Ok_0).rows.len() == 0,
        solved(s, keys, branch_pattern(b), None).1 == keys,
{
    lemma_path_first(s, keys, b);
}

/// What an alternative gives has the columns of its two parts, and every row
/// makes both hold.
proof fn lemma_shown(s: Setting, keys: Seq<Seq<char>>, b: BranchView, v: Seq<Seq<char>>, wide: Seq<u32>)
    requires
        clean(s.index.triples()),
        estimable(s.index),
        s.cap < usize::MAX,
        branch_ok(s.index, keys, b, v),
        solved(s, keys, branch_pattern(b), None).0 is Ok,
        (solved(s, keys, branch_pattern(b), None).0->Ok_0).rows.contains(wide),
    ensures
        ({
            let jv = join_vars(path_vars(b), projected_variables(b.patterns));
            &&& (solved(s, keys, branch_pattern(b), None).0->Ok_0).vars == jv
            &&& branch_holds(s.index.triples(), keys, b, assigned(jv, wide))
        }),
{
    let set = s.index.triples();
    let l = path_table(s.index, keys, b.subject, b.path, b.object);
    let r = bgp_outcome(s.index, keys, b.patterns, None, s.cap)->Ok_0;
    let t = solved(s, keys, branch_pattern(b), None).0->Ok_0;
    lemma_path_first(s, keys, b);
    assert(t == join_tables(l, r, any_row(), false));
    law_bgp(s.index, keys, b.patterns, s.cap);
    lemma_path_vars(b);
    let pv = path_vars(b);
    let bv = projected_variables(b.patterns);
    let jv = join_vars(pv, bv);
    lemma_columns(b.patterns);
    lemma_join_vars(pv, bv);
    if r.rows.len() == 0 {
        lemma_join_nothing(l, r, wide);
    }
    law_path_pattern(s.index, keys, b.subject, b.path, b.object, aligned(pv, jv, wide));
    assert(l.vars == pv && r.vars == bv);
    lemma_path_ok(s.index, keys, b);
    law_join(l, r, any_row(), wide);
    let env = assigned(jv, wide);
    let left = aligned(pv, jv, wide);
    let right = aligned(bv, jv, wide);
    if let Some(n) = node_var(b.subject) {
        assert(pv.contains(n));
        lemma_part(pv, jv, wide, n);
    }
    if let Some(n) = node_var(b.object) {
        assert(pv.contains(n));
        lemma_part(pv, jv, wide, n);
    }
    assert forall|j: int| 0 <= j < b.patterns.len() implies holds_under(
        set,
        keys,
        #[trigger] b.patterns[j],
        env,
    ) by {
        assert(holds_under(set, keys, b.patterns[j], assigned(bv, right)));
        assert forall|n: Seq<char>| #[trigger] triple_columns(b.patterns[j]).contains(n) implies assigned(
            bv,
            right,
        )(n) == env(n) by {
            assert(bv.contains(n));
            lemma_part(bv, jv, wide, n);
        }
        lemma_same_names(set, keys, b.patterns[j], assigned(bv, right), env);
    }
}

/// Every row of a path pattern has all its columns.
proof fn lemma_path_ok(index: Permutations, keys: Seq<Seq<char>>, b: BranchView)
    ensures
        table_ok(path_table(index, keys, b.subject, b.path, b.object)),
{
    let t = path_table(index, keys, b.subject, b.path, b.object);
    assert forall|k: int| 0 <= k < t.rows.len() implies (#[trigger] t.rows[k]).len() == t.vars.len() by {
        assert(t.rows.contains(t.rows[k]));
        law_path_pattern(index, keys, b.subject, b.path, b.object, t.rows[k]);
    }
}

/// An assignment under which an alternative holds is a row of what it gives.
proof fn lemma_found(s: Setting, keys: Seq<Seq<char>>, b: BranchView, v: Seq<Seq<char>>, env: Assignment)
    requires
        clean(s.index.triples()),
        estimable(s.index),
        s.cap < usize::MAX,
        branch_ok(s.index, keys, b, v),
        solved(s, keys, branch_pattern(b), None).0 is Ok,
        branch_holds(s.index.triples(), keys, b, env),
    ensures
        ({
            let jv = join_vars(path_vars(b), projected_variables(b.patterns));
            (solved(s, keys, branch_pattern(b), None).0->Ok_0).rows.contains(
                Seq::new(jv.len(), |c: int| env(jv[c])),
            )
        }),
{
    let set = s.index.triples();
    let l = path_table(s.index, keys, b.subject, b.path, b.object);
    let r = bgp_outcome(s.index, keys, b.patterns, None, s.cap)->Ok_0;
    let t = solved(s, keys, branch_pattern(b), None).0->Ok_0;
    lemma_path_vars(b);
    let pv = path_vars(b);
    let bv = projected_variables(b.patterns);
    let jv = join_vars(pv, bv);
    let wide = Seq::new(jv.len(), |c: int| env(jv[c]));
    lemma_columns(b.patterns);
    lemma_join_vars(pv, bv);
    let left = aligned(pv, jv, wide);
    let right = aligned(bv, jv, wide);
    assert forall|n: Seq<char>| jv.contains(n) implies #[trigger] assigned(jv, wide)(n) == env(n) by {
        lemma_place_bounds(jv, n);
    }
    if let Some(n) = node_var(b.subject) {
        assert(pv.contains(n) && jv.contains(n));
        lemma_part(pv, jv, wide, n);
        assert(assigned(jv, wide)(n) == env(n));
    }
    if let Some(n) = node_var(b.object) {
        assert(pv.contains(n) && jv.contains(n));
        lemma_part(pv, jv, wide, n);
        assert(assigned(jv, wide)(n) == env(n));
    }
    law_path_pattern(s.index, keys, b.subject, b.path, b.object, left);
    assert(l.vars == pv);
    assert(l.rows.contains(left));
    lemma_path_first(s, keys, b);
    assert(t == join_tables(l, r, any_row(), false));
    law_bgp(s.index, keys, b.patterns, s.cap);
    assert forall|j: int| 0 <= j < b.patterns.len() implies holds_under(
        set,
        keys,
        #[trigger] b.patterns[j],
        assigned(bv, right),
    ) by {
        assert forall|n: Seq<char>| #[trigger] triple_columns(b.patterns[j]).contains(n) implies env(n)
            == assigned(bv, right)(n) by {
            assert(bv.contains(n) && jv.contains(n));
            lemma_part(bv, jv, wide, n);
            assert(assigned(jv, wide)(n) == env(n));
        }
        lemma_same_names(set, keys, b.patterns[j], env, assigned(bv, right));
    }
    assert(r.rows.contains(right));
    assert(r.rows.len() > 0);
    lemma_path_ok(s.index, keys, b);
    law_join(l, r, any_row(), wide);
}

// --- The paths of the alternatives ----------------------------------------------------

proof fn lemma_link_start(index: Permutations, keys: Seq<Seq<char>>, iri: Seq<char>, n: nat, x: u32, y: u32)
    requires
        index.wf(),
        n > 0,
        chain(relation(index.triples(), keys, PathView::Link(iri)), n, x, y),
    ensures
        index.subject_keys().contains(x),
{
    let r = relation(index.triples(), keys, PathView::Link(iri));
    let z = choose|z: u32| #[trigger] r(x, z) && chain(r, (n - 1) as nat, z, y);
    index.law_listed_keys();
    assert(index.triples().contains((x, iri_id(keys, iri)->0, z)));
}

proof fn lemma_closure_starts(index: Permutations, keys: Seq<Seq<char>>, iri: Seq<char>)
    requires
        index.wf(),
    ensures
        starts_at_nodes(index, keys, one_or_more(iri)),
{
    let set = index.triples();
    let r = relation(set, keys, PathView::Link(iri));
    assert forall|x: u32, y: u32| #[trigger] linked(set, keys, one_or_more(iri), x, y) implies index.subject_keys().union(
        index.object_keys(),
    ).contains(x) by {
        assert(relation(set, keys, one_or_more(iri))(x, y) == repeated(r, 1, x, y)) by {
            reveal_with_fuel(relation, 2);
        }
        let n = choose|n: nat| n >= 1 && chain(r, n, x, y);
        lemma_link_start(index, keys, iri, n, x, y);
    }
}

proof fn lemma_declaration_starts(index: Permutations, keys: Seq<Seq<char>>, domain: bool)
    requires
        index.wf(),
    ensures
        starts_at_nodes(index, keys, declaration_path(domain)),
{
    let set = index.triples();
    let link = relation(set, keys, PathView::Link(sub_property_of()));
    let front = PathView::ZeroOrMore(Box::new(PathView::Link(sub_property_of())));
    let stated = PathView::Link(declared_by(domain));
    let rest = PathView::ZeroOrMore(Box::new(PathView::Link(sub_class_of())));
    let both = PathView::Sequence(Box::new(front), Box::new(stated));
    assert forall|x: u32, y: u32| #[trigger] linked(set, keys, declaration_path(domain), x, y) implies index.subject_keys().union(
        index.object_keys(),
    ).contains(x) by {
        assert(declaration_path(domain) == PathView::Sequence(Box::new(both), Box::new(rest)));
        let rb = relation(set, keys, both);
        let rr = relation(set, keys, rest);
        assert(composed(rb, rr, x, y));
        let z = choose|z: u32| #[trigger] rb(x, z) && rr(z, y);
        let rf = relation(set, keys, front);
        let rs = relation(set, keys, stated);
        assert(composed(rf, rs, x, z));
        let w = choose|w: u32| #[trigger] rf(x, w) && rs(w, z);
        assert(repeated(link, 0, x, w));
        let n = choose|n: nat| n >= 0 && chain(link, n, x, w);
        if n == 0 {
            index.law_listed_keys();
            assert(set.contains((x, iri_id(keys, declared_by(domain))->0, z)));
        } else {
            lemma_link_start(index, keys, sub_property_of(), n, x, w);
        }
    }
}

// --- The alternatives for one triple ---------------------------------------------------

/// The alternative for triple `i`: by a subclass, by a domain, by a range, or by
/// a sub-property.
spec fn branch_at(ts: Seq<TripleView>, i: int, kind: int, n: u64) -> BranchView {
    if kind == 0 {
        super_class_branch(ts, i, n)
    } else if kind == 1 {
        declaration_branch(ts, i, true, n)
    } else if kind == 2 {
        declaration_branch(ts, i, false, n)
    } else {
        sub_property_branch(ts, i, n)
    }
}

/// Whether triple `i` has an alternative of this kind.
spec fn has_kind(ts: Seq<TripleView>, i: int, kind: int) -> bool {
    if asks_type(ts[i]) {
        0 <= kind <= 2
    } else {
        kind == 3
    }
}

/// The rule behind an alternative gives the triple that the assignment makes of
/// the pattern.
spec fn rule(set: Set<IdTriple>, keys: Seq<Seq<char>>, t: TripleView, env: Assignment, kind: int) -> bool {
    let s = node_value(keys, t.subject, env);
    let p = node_value(keys, t.predicate, env);
    let o = node_value(keys, t.object, env);
    &&& s is Some
    &&& o is Some
    &&& if kind == 0 {
        by_super_class(set, keys, s->0, o->0)
    } else if kind == 1 {
        by_declaration(set, keys, true, s->0, o->0)
    } else if kind == 2 {
        by_declaration(set, keys, false, s->0, o->0)
    } else {
        p is Some && by_sub_property(set, keys, s->0, p->0, o->0)
    }
}

/// Names that are made for different purposes differ.
proof fn lemma_names_differ(n: u64, m: u64)
    ensures
        fresh_name("pred"@, n) != fresh_name("node"@, m),
{
    reveal_strlit("__infer_");
    reveal_strlit("pred");
    reveal_strlit("node");
    let a = fresh_name("pred"@, n);
    let b = fresh_name("node"@, m);
    assert(a[8] == 'p');
    assert(b[8] == 'n');
}

/// What putting another triple in the place of triple `i` does to the columns.
proof fn lemma_replaced(ts: Seq<TripleView>, i: int, t: TripleView, f: Seq<char>, g: Seq<char>)
    requires
        0 <= i < ts.len(),
        forall|n: Seq<char>| #[trigger]
            triple_columns(t).contains(n) ==> triple_columns(ts[i]).contains(n) || n == f || n == g,
    ensures
        projected_variables(ts.update(i, t)).len() <= projected_variables(ts).len() + 2,
        forall|n: Seq<char>|
            projected_variables(ts).contains(n) && !triple_columns(ts[i]).contains(n)
                ==> #[trigger] projected_variables(ts.update(i, t)).contains(n),
        forall|n: Seq<char>|
            triple_columns(t).contains(n) ==> #[trigger] projected_variables(ts.update(i, t)).contains(n),
{
    let us = ts.update(i, t);
    let v = projected_variables(ts);
    let w = projected_variables(us);
    lemma_columns(ts);
    lemma_columns(us);
    let all = v + seq![f, g];
    assert forall|n: Seq<char>| w.contains(n) implies #[trigger] all.contains(n) by {
        let j = choose|j: int| 0 <= j < us.len() && triple_columns(#[trigger] us[j]).contains(n);
        assert(all[v.len() as int] == f && all[v.len() as int + 1] == g);
        if n != f && n != g {
            let k = if j == i {
                i
            } else {
                j
            };
            assert(triple_columns(ts[k]).contains(n));
            assert(v.contains(n));
            let c = choose|c: int| 0 <= c < v.len() && v[c] == n;
            assert(all[c] == n);
        }
    }
    lemma_fewer(w, all);
    assert forall|n: Seq<char>| v.contains(n) && !triple_columns(ts[i]).contains(n) implies #[trigger] w.contains(
        n,
    ) by {
        let j = choose|j: int| 0 <= j < ts.len() && triple_columns(#[trigger] ts[j]).contains(n);
        assert(us[j] == ts[j]);
    }
    assert forall|n: Seq<char>| triple_columns(t).contains(n) implies #[trigger] w.contains(n) by {
        assert(us[i] == t);
    }
}

/// An alternative can be evaluated.
proof fn lemma_branch_ok(index: Permutations, keys: Seq<Seq<char>>, ts: Seq<TripleView>, i: int, kind: int, n: u64)
    requires
        index.wf(),
        0 <= i < ts.len(),
        has_kind(ts, i, kind),
        names_free(ts),
        projected_variables(ts).len() + 2 <= usize::MAX,
    ensures
        branch_ok(index, keys, branch_at(ts, i, kind, n), projected_variables(ts)),
{
    let b = branch_at(ts, i, kind, n);
    let v = projected_variables(ts);
    let t = b.patterns[i];
    let old_t = ts[i];
    let f = node_var(b.subject)->0;
    let g = if kind == 1 || kind == 2 {
        fresh_name("node"@, next_number(n))
    } else {
        f
    };
    lemma_columns(ts);
    lemma_names_differ(n, next_number(n));
    assert(b.patterns == ts.update(i, t));
    assert(!v.contains(f) && !v.contains(g));
    assert forall|m: Seq<char>| #[trigger] triple_columns(old_t).contains(m) implies m != f && m != g by {
        lemma_column_of(ts, i, m);
    }
    assert forall|m: Seq<char>|
        (node_var(old_t.subject) == Some(m) || node_var(old_t.predicate) == Some(m) || node_var(
            old_t.object,
        ) == Some(m)) implies m != f && m != g by {
        lemma_positions(old_t, m);
        assert(triple_columns(old_t).contains(m));
    }
    assert forall|m: Seq<char>| #[trigger] triple_columns(t).contains(m) implies triple_columns(
        old_t,
    ).contains(m) || m == f || m == g by {
        lemma_positions(t, m);
        lemma_positions(old_t, m);
    }
    lemma_replaced(ts, i, t, f, g);
    assert forall|m: Seq<char>| v.contains(m) implies #[trigger] projected_variables(b.patterns).contains(m)
        || node_var(b.object) == Some(m) by {
        if triple_columns(old_t).contains(m) {
            lemma_positions(old_t, m);
            lemma_positions(t, m);
        }
    }
    lemma_closure_starts(index, keys, sub_class_of());
    lemma_closure_starts(index, keys, sub_property_of());
    lemma_declaration_starts(index, keys, true);
    lemma_declaration_starts(index, keys, false);
}

// --- What the alternatives mean --------------------------------------------------------

proof fn lemma_env(v: Seq<Seq<char>>, row: Seq<u32>, env: Assignment, n: Seq<char>)
    requires
        agrees(v, row, env),
        v.contains(n),
    ensures
        env(n) == assigned(v, row)(n),
{
    lemma_place_bounds(v, n);
    assert(row[place(v, n)] == env(v[place(v, n)]));
}

/// Under an assignment that agrees with the row, a pattern position has the value
/// that the row gives it.
proof fn lemma_values(keys: Seq<Seq<char>>, ts: Seq<TripleView>, i: int, row: Seq<u32>, env: Assignment)
    requires
        0 <= i < ts.len(),
        agrees(projected_variables(ts), row, env),
    ensures
        ({
            let e = assigned(projected_variables(ts), row);
            &&& node_value(keys, ts[i].subject, env) == node_value(keys, ts[i].subject, e)
            &&& node_value(keys, ts[i].predicate, env) == node_value(keys, ts[i].predicate, e)
            &&& node_value(keys, ts[i].object, env) == node_value(keys, ts[i].object, e)
        }),
{
    let v = projected_variables(ts);
    if let Some(m) = node_var(ts[i].subject) {
        lemma_positions(ts[i], m);
        lemma_column_of(ts, i, m);
        lemma_env(v, row, env, m);
    }
    if let Some(m) = node_var(ts[i].predicate) {
        lemma_positions(ts[i], m);
        lemma_column_of(ts, i, m);
        lemma_env(v, row, env, m);
    }
    if let Some(m) = node_var(ts[i].object) {
        lemma_positions(ts[i], m);
        lemma_column_of(ts, i, m);
        lemma_env(v, row, env, m);
    }
}

/// With another triple in place `i`, all triples hold exactly if that one and
/// all others do.
proof fn lemma_others(
    set: Set<IdTriple>,
    keys: Seq<Seq<char>>,
    ts: Seq<TripleView>,
    i: int,
    t: TripleView,
    row: Seq<u32>,
    env: Assignment,
)
    requires
        0 <= i < ts.len(),
        agrees(projected_variables(ts), row, env),
    ensures
        (forall|j: int|
            0 <= j < ts.len() ==> holds_under(set, keys, #[trigger] ts.update(i, t)[j], env)) <==> (
        holds_under(set, keys, t, env) && others_hold(
            set,
            keys,
            ts,
            assigned(projected_variables(ts), row),
            i,
        )),
{
    let us = ts.update(i, t);
    let e = assigned(projected_variables(ts), row);
    assert forall|j: int| 0 <= j < ts.len() && j != i implies holds_under(set, keys, #[trigger] ts[j], e)
        == holds_under(set, keys, us[j], env) by {
        lemma_values(keys, ts, j, row, env);
    }
    if forall|j: int| 0 <= j < ts.len() ==> holds_under(set, keys, #[trigger] us[j], env) {
        assert(us[i] == t);
        assert(holds_under(set, keys, us[i], env));
        assert forall|j: int| 0 <= j < ts.len() && j != i implies holds_under(
            set,
            keys,
            #[trigger] ts[j],
            e,
        ) by {
            assert(holds_under(set, keys, us[j], env));
        }
    }
    if holds_under(set, keys, t, env) && others_hold(set, keys, ts, e, i) {
        assert forall|j: int| 0 <= j < ts.len() implies holds_under(set, keys, #[trigger] us[j], env) by {
            if j != i {
                assert(holds_under(set, keys, ts[j], e));
            }
        }
    }
}

/// Where an alternative holds, its rule gives the triple.
proof fn lemma_sound(
    set: Set<IdTriple>,
    keys: Seq<Seq<char>>,
    ts: Seq<TripleView>,
    i: int,
    kind: int,
    n: u64,
    row: Seq<u32>,
    env: Assignment,
)
    requires
        0 <= i < ts.len(),
        has_kind(ts, i, kind),
        agrees(projected_variables(ts), row, env),
        branch_holds(set, keys, branch_at(ts, i, kind, n), env),
    ensures
        rule(set, keys, ts[i], assigned(projected_variables(ts), row), kind),
        others_hold(set, keys, ts, assigned(projected_variables(ts), row), i),
{
    let b = branch_at(ts, i, kind, n);
    let t = b.patterns[i];
    assert(b.patterns == ts.update(i, t));
    lemma_others(set, keys, ts, i, t, row, env);
    lemma_values(keys, ts, i, row, env);
    assert(holds_under(set, keys, t, env));
    let s = node_value(keys, ts[i].subject, env)->0;
    let o = node_value(keys, ts[i].object, env)->0;
    let x = node_value(keys, b.subject, env)->0;
    if kind == 0 {
        assert(linked(set, keys, one_or_more(sub_class_of()), x, o));
    } else if kind == 1 {
        let other = env(fresh_name("node"@, next_number(n)));
        assert(set.contains((s, x, other)));
        assert(takes_part(set, true, s, x));
        assert(linked(set, keys, declaration_path(true), x, o));
    } else if kind == 2 {
        let other = env(fresh_name("node"@, next_number(n)));
        assert(set.contains((other, x, s)));
        assert(takes_part(set, false, s, x));
        assert(linked(set, keys, declaration_path(false), x, o));
    } else {
        let p = node_value(keys, ts[i].predicate, env)->0;
        assert(linked(set, keys, one_or_more(sub_property_of()), x, p));
    }
}

/// The assignment of a row, with two more names.
spec fn with_names(e: Assignment, f: Seq<char>, x: u32, g: Seq<char>, y: u32) -> Assignment {
    |m: Seq<char>|
        if m == f {
            x
        } else if m == g {
            y
        } else {
            e(m)
        }
}

proof fn lemma_with_names(v: Seq<Seq<char>>, row: Seq<u32>, f: Seq<char>, x: u32, g: Seq<char>, y: u32)
    requires
        v.no_duplicates(),
        row.len() == v.len(),
        !v.contains(f),
        !v.contains(g),
    ensures
        agrees(v, row, with_names(assigned(v, row), f, x, g, y)),
{
    let env = with_names(assigned(v, row), f, x, g, y);
    assert forall|c: int| 0 <= c < v.len() implies #[trigger] row[c] == env(v[c]) by {
        assert(v.contains(v[c]));
        lemma_place_at(v, c);
    }
}

/// Where a rule gives the triple, its alternative holds.
proof fn lemma_complete(
    set: Set<IdTriple>,
    keys: Seq<Seq<char>>,
    ts: Seq<TripleView>,
    i: int,
    kind: int,
    n: u64,
    row: Seq<u32>,
) -> (env: Assignment)
    requires
        0 <= i < ts.len(),
        has_kind(ts, i, kind),
        names_free(ts),
        row.len() == projected_variables(ts).len(),
        rule(set, keys, ts[i], assigned(projected_variables(ts), row), kind),
        others_hold(set, keys, ts, assigned(projected_variables(ts), row), i),
    ensures
        agrees(projected_variables(ts), row, env),
        branch_holds(set, keys, branch_at(ts, i, kind, n), env),
{
    let v = projected_variables(ts);
    let e = assigned(v, row);
    let b = branch_at(ts, i, kind, n);
    let t = b.patterns[i];
    let s = node_value(keys, ts[i].subject, e)->0;
    let o = node_value(keys, ts[i].object, e)->0;
    let f = node_var(b.subject)->0;
    let g = fresh_name("node"@, next_number(n));
    lemma_columns(ts);
    lemma_names_differ(n, next_number(n));
    assert(b.patterns == ts.update(i, t));
    let (x, y): (u32, u32) = if kind == 0 {
        (
            choose|c: u32|
                #![trigger linked(set, keys, one_or_more(sub_class_of()), c, o)]
                iri_id(keys, rdf_type()) is Some && set.contains((s, iri_id(keys, rdf_type())->0, c))
                    && linked(set, keys, one_or_more(sub_class_of()), c, o),
            0,
        )
    } else if kind == 1 {
        let p = choose|p: u32|
            #![trigger linked(set, keys, declaration_path(true), p, o)]
            takes_part(set, true, s, p) && linked(set, keys, declaration_path(true), p, o);
        (p, choose|z: u32| set.contains((s, p, z)))
    } else if kind == 2 {
        let p = choose|p: u32|
            #![trigger linked(set, keys, declaration_path(false), p, o)]
            takes_part(set, false, s, p) && linked(set, keys, declaration_path(false), p, o);
        (p, choose|z: u32| set.contains((z, p, s)))
    } else {
        let p = node_value(keys, ts[i].predicate, e)->0;
        (
            choose|q: u32|
                #![trigger linked(set, keys, one_or_more(sub_property_of()), q, p)]
                set.contains((s, q, o)) && linked(set, keys, one_or_more(sub_property_of()), q, p),
            0,
        )
    };
    let env = with_names(e, f, x, g, y);
    assert(!v.contains(f) && !v.contains(g));
    lemma_with_names(v, row, f, x, g, y);
    lemma_values(keys, ts, i, row, env);
    assert(env(f) == x);
    assert(f != g ==> env(g) == y);
    assert(holds_under(set, keys, t, env));
    lemma_others(set, keys, ts, i, t, row, env);
    env
}

// --- All alternatives --------------------------------------------------------------------

spec fn is_branch(ts: Seq<TripleView>, bs: Seq<BranchView>, m: int, i: int, kind: int, n: u64) -> bool {
    0 <= m < bs.len() && bs[m] == branch_at(ts, i, kind, n)
}

/// Alternative `m` is one for one of the first `k` triples.
spec fn for_a_triple(ts: Seq<TripleView>, bs: Seq<BranchView>, m: int, k: int) -> bool {
    exists|i: int, kind: int, c: u64|
        0 <= i < k && has_kind(ts, i, kind) && #[trigger] is_branch(ts, bs, m, i, kind, c)
}

/// The alternatives are those of all kinds for all triples.
proof fn lemma_branches(ts: Seq<TripleView>, k: int, n: u64)
    requires
        0 <= k <= ts.len(),
    ensures
        forall|m: int|
            0 <= m < branches_of(ts, k, n).0.len() ==> #[trigger] for_a_triple(
                ts,
                branches_of(ts, k, n).0,
                m,
                k,
            ),
        forall|i: int, kind: int|
            0 <= i < k && #[trigger] has_kind(ts, i, kind) ==> exists|m: int, c: u64| #[trigger]
                is_branch(ts, branches_of(ts, k, n).0, m, i, kind, c),
    decreases k,
{
    let (all, _) = branches_of(ts, k, n);
    if k > 0 {
        lemma_branches(ts, k - 1, n);
        let (before, c0) = branches_of(ts, k - 1, n);
        let z = before.len() as int;
        let c1 = next_number(c0);
        let c3 = next_number(next_number(c1));
        if asks_type(ts[k - 1]) {
            assert(is_branch(ts, all, z, k - 1, 0, c0));
            assert(is_branch(ts, all, z + 1, k - 1, 1, c1));
            assert(is_branch(ts, all, z + 2, k - 1, 2, c3));
        } else {
            assert(is_branch(ts, all, z, k - 1, 3, c0));
        }
        assert forall|m: int| 0 <= m < all.len() implies #[trigger] for_a_triple(ts, all, m, k) by {
            if m < z {
                assert(for_a_triple(ts, before, m, k - 1));
                let (i, kind, c) = choose|i: int, kind: int, c: u64|
                    0 <= i < k - 1 && has_kind(ts, i, kind) && #[trigger] is_branch(
                        ts,
                        before,
                        m,
                        i,
                        kind,
                        c,
                    );
                assert(all[m] == before[m]);
                assert(is_branch(ts, all, m, i, kind, c));
            } else if asks_type(ts[k - 1]) {
                assert(has_kind(ts, k - 1, m - z));
            } else {
                assert(has_kind(ts, k - 1, 3));
            }
        }
        assert forall|i: int, kind: int| 0 <= i < k && #[trigger] has_kind(ts, i, kind) implies exists|
            m: int,
            c: u64,
        | #[trigger] is_branch(ts, all, m, i, kind, c) by {
            if i < k - 1 {
                let (m, c) = choose|m: int, c: u64| #[trigger] is_branch(ts, before, m, i, kind, c);
                assert(all[m] == before[m]);
                assert(is_branch(ts, all, m, i, kind, c));
            }
        }
    }
}

/// A pattern with alternatives shows what the pattern or one of them shows.
proof fn lemma_alternatives(
    s: Setting,
    keys: Seq<Seq<char>>,
    ts: Seq<TripleView>,
    bs: Seq<BranchView>,
    k: int,
    v: Seq<Seq<char>>,
    row: Seq<u32>,
)
    requires
        0 <= k <= bs.len(),
        solved(s, keys, alternatives(PatternView::Bgp(ts), bs, k), None).0 is Ok,
    ensures
        solved(s, keys, alternatives(PatternView::Bgp(ts), bs, k), None).1 == keys,
        solved(s, keys, PatternView::Bgp(ts), None).0 is Ok,
        forall|m: int|
            0 <= m < k ==> solved(s, keys, branch_pattern(#[trigger] bs[m]), None).0 is Ok,
        shows(solved(s, keys, alternatives(PatternView::Bgp(ts), bs, k), None).0->Ok_0, v, row) <==> {
            ||| shows(solved(s, keys, PatternView::Bgp(ts), None).0->Ok_0, v, row)
            ||| exists|m: int|
                0 <= m < k && shows(
                    solved(s, keys, branch_pattern(#[trigger] bs[m]), None).0->Ok_0,
                    v,
                    row,
                )
        },
    decreases k,
{
    if k > 0 {
        let before = alternatives(PatternView::Bgp(ts), bs, k - 1);
        let last = branch_pattern(bs[k - 1]);
        assert(alternatives(PatternView::Bgp(ts), bs, k) == PatternView::Union(
            Box::new(before),
            Box::new(last),
        ));
        assert(solved(s, keys, before, None).0 is Ok);
        lemma_alternatives(s, keys, ts, bs, k - 1, v, row);
        let l = solved(s, keys, before, None).0->Ok_0;
        assert(solved(s, keys, last, None).0 is Ok);
        let r = solved(s, keys, last, None).0->Ok_0;
        lemma_path_first(s, keys, bs[k - 1]);
        law_union(l, r, v, row);
    }
}

// --- How many columns there are ----------------------------------------------------------

/// The columns of a basic graph pattern and of all its alternatives can be
/// numbered.
pub open spec fn columns_fit(ts: Seq<TripleView>) -> bool {
    (projected_variables(ts).len() + 4) * (3 * ts.len() + 1) <= usize::MAX
}

proof fn lemma_merged_len(seen: Seq<Seq<char>>, more: Seq<Seq<char>>)
    ensures
        merged_names(seen, more).len() <= seen.len() + more.len(),
    decreases more.len(),
{
    if more.len() > 0 {
        lemma_merged_len(seen, more.drop_last());
    }
}

proof fn lemma_new_len(lv: Seq<Seq<char>>, rv: Seq<Seq<char>>)
    ensures
        join_vars(lv, rv).len() <= lv.len() + rv.len(),
    decreases rv.len(),
{
    if rv.len() > 0 {
        lemma_new_len(lv, rv.drop_last());
    }
}

/// The variables of a basic graph pattern are among its columns.
proof fn lemma_own_vars(ts: Seq<TripleView>)
    ensures
        variables_of(ts).no_duplicates(),
        forall|n: Seq<char>| #[trigger]
            variables_of(ts).contains(n) ==> projected_variables(ts).contains(n),
    decreases ts.len(),
{
    if ts.len() > 0 {
        let rest = ts.drop_last();
        let t = ts.last();
        lemma_own_vars(rest);
        lemma_merged_names(variables_of(rest), own_vars(t));
        lemma_merged_names(projected_variables(rest), triple_columns(t));
        assert forall|n: Seq<char>| #[trigger] variables_of(ts).contains(n) implies projected_variables(
            ts,
        ).contains(n) by {
            if own_vars(t).contains(n) {
                lemma_positions(t, n);
                assert(triple_columns(t).contains(n));
            } else {
                assert(variables_of(rest).contains(n));
            }
            assert(projected_variables(ts) == merged_names(projected_variables(rest), triple_columns(t)));
        }
    }
}

/// A basic graph pattern gives no more columns than it has.
proof fn lemma_bgp_width(s: Setting, keys: Seq<Seq<char>>, ts: Seq<TripleView>)
    ensures
        bgp_columns(keys, ts).len() <= projected_variables(ts).len(),
        bgp_outcome(s.index, keys, ts, None, s.cap) is Ok ==> (bgp_outcome(
            s.index,
            keys,
            ts,
            None,
            s.cap,
        )->Ok_0).vars == bgp_columns(keys, ts),
{
    match id_triples(keys, ts) {
        Some(_) => {
            lemma_columns_known(keys, ts);
        },
        None => {
            lemma_own_vars(ts);
            lemma_fewer(variables_of(ts), projected_variables(ts));
        },
    }
}

proof fn lemma_branch_width(s: Setting, keys: Seq<Seq<char>>, b: BranchView, v: Seq<Seq<char>>)
    requires
        branch_ok(s.index, keys, b, v),
        solved(s, keys, branch_pattern(b), None).0 is Ok,
    ensures
        (solved(s, keys, branch_pattern(b), None).0->Ok_0).vars.len() <= v.len() + 4,
{
    let l = path_table(s.index, keys, b.subject, b.path, b.object);
    lemma_path_first(s, keys, b);
    lemma_path_vars(b);
    law_path_pattern(s.index, keys, b.subject, b.path, b.object, Seq::empty());
    lemma_bgp_width(s, keys, b.patterns);
    lemma_new_len(l.vars, bgp_columns(keys, b.patterns));
}

proof fn lemma_alternatives_width(
    s: Setting,
    keys: Seq<Seq<char>>,
    ts: Seq<TripleView>,
    bs: Seq<BranchView>,
    k: int,
)
    requires
        0 <= k <= bs.len(),
        solved(s, keys, alternatives(PatternView::Bgp(ts), bs, k), None).0 is Ok,
        forall|m: int|
            0 <= m < k ==> branch_ok(s.index, keys, #[trigger] bs[m], projected_variables(ts)),
    ensures
        (solved(s, keys, alternatives(PatternView::Bgp(ts), bs, k), None).0->Ok_0).vars.len() <= (
        projected_variables(ts).len() + 4) * (k + 1),
    decreases k,
{
    let w = projected_variables(ts).len() + 4;
    lemma_alternatives(s, keys, ts, bs, k, Seq::empty(), Seq::empty());
    if k > 0 {
        let before = alternatives(PatternView::Bgp(ts), bs, k - 1);
        let last = branch_pattern(bs[k - 1]);
        assert(alternatives(PatternView::Bgp(ts), bs, k) == PatternView::Union(
            Box::new(before),
            Box::new(last),
        ));
        assert(solved(s, keys, before, None).0 is Ok);
        lemma_alternatives(s, keys, ts, bs, k - 1, Seq::empty(), Seq::empty());
        lemma_alternatives_width(s, keys, ts, bs, k - 1);
        lemma_branch_width(s, keys, bs[k - 1], projected_variables(ts));
        let l = solved(s, keys, before, None).0->Ok_0;
        let r = solved(s, keys, last, None).0->Ok_0;
        lemma_merged_len(l.vars, r.vars);
        assert(w * (k + 1) == w * k + w) by (nonlinear_arith);
    } else {
        lemma_bgp_width(s, keys, ts);
        assert(w * 1 == w) by (nonlinear_arith);
    }
}

proof fn lemma_branches_len(ts: Seq<TripleView>, k: int, n: u64)
    requires
        0 <= k,
    ensures
        branches_of(ts, k, n).0.len() <= 3 * k,
        k > 0 ==> branches_of(ts, k, n).0.len() > 0,
    decreases k,
{
    if k > 0 {
        lemma_branches_len(ts, k - 1, n);
    }
}

// --- The law -------------------------------------------------------------------------------

proof fn lemma_none_missing(vars: Seq<Seq<char>>, names: Seq<Seq<char>>, i: int)
    requires
        first_missing(vars, names, i) is None,
        0 <= i,
    ensures
        forall|c: int| i <= c < names.len() ==> place(vars, #[trigger] names[c]) < vars.len(),
    decreases names.len() - i,
{
    if i < names.len() {
        lemma_none_missing(vars, names, i + 1);
    }
}

/// Projection to columns that are there puts the rows in those columns.
proof fn lemma_projected(t: Table, v: Seq<Seq<char>>, row: Seq<u32>)
    requires
        t.vars.len() <= usize::MAX,
        first_missing(t.vars, v, 0) is None,
    ensures
        projected(t.vars, v, t.rows).contains(row) <==> shows(t, v, row),
{
    lemma_none_missing(t.vars, v, 0);
    let narrow = projected(t.vars, v, t.rows);
    assert forall|k: int| 0 <= k < t.rows.len() implies narrow[k] == aligned(v, t.vars, #[trigger] t.rows[k]) by {
        assert forall|c: int| 0 <= c < v.len() implies narrow[k][c] == aligned(v, t.vars, t.rows[k])[c] by {
            lemma_place_bounds(t.vars, v[c]);
        }
        assert(narrow[k] =~= aligned(v, t.vars, t.rows[k]));
    }
    if narrow.contains(row) {
        let k = choose|k: int| 0 <= k < narrow.len() && narrow[k] == row;
        assert(aligned(v, t.vars, t.rows[k]) == row);
    }
    if shows(t, v, row) {
        let k = choose|k: int| 0 <= k < t.rows.len() && aligned(v, t.vars, #[trigger] t.rows[k]) == row;
        assert(narrow[k] == row);
    }
}

/// The plain pattern shows the rows under which all triples are stored.
proof fn lemma_plain(s: Setting, keys: Seq<Seq<char>>, ts: Seq<TripleView>, row: Seq<u32>)
    requires
        clean(s.index.triples()),
        estimable(s.index),
        s.cap < usize::MAX,
        projected_variables(ts).len() <= usize::MAX,
        solved(s, keys, PatternView::Bgp(ts), None).0 is Ok,
    ensures
        shows(solved(s, keys, PatternView::Bgp(ts), None).0->Ok_0, projected_variables(ts), row) <==> {
            &&& row.len() == projected_variables(ts).len()
            &&& forall|i: int|
                0 <= i < ts.len() ==> holds_under(
                    s.index.triples(),
                    keys,
                    #[trigger] ts[i],
                    assigned(projected_variables(ts), row),
                )
        },
{
    let t = solved(s, keys, PatternView::Bgp(ts), None).0->Ok_0;
    let v = projected_variables(ts);
    law_bgp(s.index, keys, ts, s.cap);
    lemma_columns(ts);
    if shows(t, v, row) {
        let k = choose|k: int| 0 <= k < t.rows.len() && aligned(v, t.vars, #[trigger] t.rows[k]) == row;
        lemma_own_row(v, t.rows[k]);
        assert(t.rows.contains(row));
    }
    if t.rows.contains(row) {
        let k = choose|k: int| 0 <= k < t.rows.len() && t.rows[k] == row;
        lemma_own_row(v, row);
        assert(aligned(v, t.vars, t.rows[k]) == row);
    }
}

/// In its own columns a row is itself.
proof fn lemma_own_row(v: Seq<Seq<char>>, row: Seq<u32>)
    requires
        v.no_duplicates(),
        row.len() == v.len(),
    ensures
        aligned(v, v, row) == row,
{
    assert forall|c: int| 0 <= c < v.len() implies aligned(v, v, row)[c] == row[c] by {
        lemma_place_at(v, c);
    }
    assert(aligned(v, v, row) =~= row);
}

/// What the pattern and its alternatives show is what is entailed.
proof fn lemma_entailed(s: Setting, keys: Seq<Seq<char>>, ts: Seq<TripleView>, n: u64, row: Seq<u32>)
    requires
        s.index.wf(),
        clean(s.index.triples()),
        estimable(s.index),
        s.cap < usize::MAX,
        names_free(ts),
        projected_variables(ts).len() + 2 <= usize::MAX,
        solved(
            s,
            keys,
            alternatives(
                PatternView::Bgp(ts),
                branches_of(ts, ts.len() as int, n).0,
                branches_of(ts, ts.len() as int, n).0.len() as int,
            ),
            None,
        ).0 is Ok,
    ensures
        ({
            let bs = branches_of(ts, ts.len() as int, n).0;
            let t = solved(s, keys, alternatives(PatternView::Bgp(ts), bs, bs.len() as int), None).0->Ok_0;
            let v = projected_variables(ts);
            shows(t, v, row) <==> row.len() == v.len() && entailed(
                s.index.triples(),
                keys,
                ts,
                assigned(v, row),
            )
        }),
{
    let set = s.index.triples();
    let v = projected_variables(ts);
    let e = assigned(v, row);
    let bs = branches_of(ts, ts.len() as int, n).0;
    let alts = alternatives(PatternView::Bgp(ts), bs, bs.len() as int);
    let t = solved(s, keys, alts, None).0->Ok_0;
    lemma_alternatives(s, keys, ts, bs, bs.len() as int, v, row);
    lemma_plain(s, keys, ts, row);
    lemma_branches(ts, ts.len() as int, n);
    if exists|m: int|
        0 <= m < bs.len() && shows(
            solved(s, keys, branch_pattern(#[trigger] bs[m]), None).0->Ok_0,
            v,
            row,
        ) {
        let m = choose|m: int|
            0 <= m < bs.len() && shows(
                solved(s, keys, branch_pattern(#[trigger] bs[m]), None).0->Ok_0,
                v,
                row,
            );
        assert(for_a_triple(ts, bs, m, ts.len() as int));
        let (i, kind, c) = choose|i: int, kind: int, c: u64|
            0 <= i < ts.len() && has_kind(ts, i, kind) && #[trigger] is_branch(ts, bs, m, i, kind, c);
        lemma_branch_ok(s.index, keys, ts, i, kind, c);
        lemma_branch(s, keys, bs[m], v, row);
        let env = choose|env: Assignment|
            agrees(v, row, env) && #[trigger] branch_holds(set, keys, bs[m], env);
        lemma_sound(set, keys, ts, i, kind, c, row, env);
        assert(follows(set, keys, ts[i], e));
        assert(entailed(set, keys, ts, e));
    }
    if row.len() == v.len() && exists|i: int|
        0 <= i < ts.len() && follows(set, keys, #[trigger] ts[i], e) && others_hold(set, keys, ts, e, i) {
        let i = choose|i: int|
            0 <= i < ts.len() && follows(set, keys, #[trigger] ts[i], e) && others_hold(
                set,
                keys,
                ts,
                e,
                i,
            );
        let kind = lemma_some_rule(set, keys, ts, i, e);
        assert(has_kind(ts, i, kind));
        let (m, c) = choose|m: int, c: u64| #[trigger] is_branch(ts, bs, m, i, kind, c);
        let env = lemma_complete(set, keys, ts, i, kind, c, row);
        lemma_branch_ok(s.index, keys, ts, i, kind, c);
        assert(branch_holds(set, keys, bs[m], env));
        lemma_branch(s, keys, bs[m], v, row);
    }
}

/// What follows, follows by one of the rules for the triple.
proof fn lemma_some_rule(
    set: Set<IdTriple>,
    keys: Seq<Seq<char>>,
    ts: Seq<TripleView>,
    i: int,
    e: Assignment,
) -> (kind: int)
    requires
        follows(set, keys, ts[i], e),
    ensures
        has_kind(ts, i, kind),
        rule(set, keys, ts[i], e, kind),
{
    if !asks_type(ts[i]) {
        3
    } else if rule(set, keys, ts[i], e, 0) {
        0
    } else if rule(set, keys, ts[i], e, 1) {
        1
    } else {
        2
    }
}

/// A basic graph pattern with inference gives exactly the entailed rows, each
/// once: those under which all triples are stored, or all but one, which follows
/// from stored ones by a rule.
pub proof fn law_inference(s: Setting, keys: Seq<Seq<char>>, ts: Seq<TripleView>, n: u64)
    requires
        s.index.wf(),
        clean(s.index.triples()),
        estimable(s.index),
        s.cap < usize::MAX,
        names_free(ts),
        columns_fit(ts),
        solved(s, keys, rewritten(PatternView::Bgp(ts), n).0, None).0 is Ok,
    ensures
        ({
            let t = solved(s, keys, rewritten(PatternView::Bgp(ts), n).0, None).0->Ok_0;
            let vars = projected_variables(ts);
            &&& t.vars == vars
            &&& t.rows.no_duplicates()
            &&& forall|row: Seq<u32>| #[trigger]
                t.rows.contains(row) <==> row.len() == vars.len() && entailed(
                    s.index.triples(),
                    keys,
                    ts,
                    assigned(vars, row),
                )
        }),
{
    let bs = branches_of(ts, ts.len() as int, n).0;
    lemma_branches_len(ts, ts.len() as int, n);
    assert(rewritten(PatternView::Bgp(ts), n).0 == inferred_bgp(ts, bs));
    if ts.len() == 0 {
        lemma_no_triples(s, keys, ts);
    } else {
        lemma_with_alternatives(s, keys, ts, n);
    }
}

/// A pattern without triples has no alternatives, and one solution.
proof fn lemma_no_triples(s: Setting, keys: Seq<Seq<char>>, ts: Seq<TripleView>)
    requires
        clean(s.index.triples()),
        estimable(s.index),
        s.cap < usize::MAX,
        ts.len() == 0,
        solved(s, keys, PatternView::Bgp(ts), None).0 is Ok,
    ensures
        ({
            let t = solved(s, keys, PatternView::Bgp(ts), None).0->Ok_0;
            let vars = projected_variables(ts);
            &&& t.vars == vars
            &&& t.rows.no_duplicates()
            &&& forall|row: Seq<u32>| #[trigger]
                t.rows.contains(row) <==> row.len() == vars.len() && entailed(
                    s.index.triples(),
                    keys,
                    ts,
                    assigned(vars, row),
                )
        }),
{
    law_bgp(s.index, keys, ts, s.cap);
    lemma_columns_known(keys, ts);
}

/// The law for a pattern that has alternatives.
proof fn lemma_with_alternatives(s: Setting, keys: Seq<Seq<char>>, ts: Seq<TripleView>, n: u64)
    requires
        s.index.wf(),
        clean(s.index.triples()),
        estimable(s.index),
        s.cap < usize::MAX,
        ts.len() > 0,
        names_free(ts),
        columns_fit(ts),
        solved(s, keys, rewritten(PatternView::Bgp(ts), n).0, None).0 is Ok,
    ensures
        ({
            let t = solved(s, keys, rewritten(PatternView::Bgp(ts), n).0, None).0->Ok_0;
            let vars = projected_variables(ts);
            &&& t.vars == vars
            &&& t.rows.no_duplicates()
            &&& forall|row: Seq<u32>| #[trigger]
                t.rows.contains(row) <==> row.len() == vars.len() && entailed(
                    s.index.triples(),
                    keys,
                    ts,
                    assigned(vars, row),
                )
        }),
{
    let set = s.index.triples();
    let v = projected_variables(ts);
    let bs = branches_of(ts, ts.len() as int, n).0;
    let alts = alternatives(PatternView::Bgp(ts), bs, bs.len() as int);
    let q = rewritten(PatternView::Bgp(ts), n).0;
    lemma_branches_len(ts, ts.len() as int, n);
    assert(q == inferred_bgp(ts, bs));
    let m = peeled(q);
    assert(m.pattern == alts);
    assert(m.projection == Some(v));
    assert(m.distinct && m.order_by.len() == 0 && m.limit is None && m.offset == 0);
    let r = solved(s, keys, alts, None).0;
    assert(r is Ok);
    let wide = r->Ok_0;
    let t = solved(s, keys, q, None).0->Ok_0;
    let w = v.len() + 4;
    let last = 3 * ts.len() + 1;
    assert(w <= w * last) by (nonlinear_arith)
        requires
            last >= 1,
            w >= 0,
    ;
    lemma_branches(ts, ts.len() as int, n);
    assert forall|k: int| 0 <= k < bs.len() implies branch_ok(s.index, keys, #[trigger] bs[k], v) by {
        assert(for_a_triple(ts, bs, k, ts.len() as int));
        let (i, kind, c) = choose|i: int, kind: int, c: u64|
            0 <= i < ts.len() && has_kind(ts, i, kind) && #[trigger] is_branch(ts, bs, k, i, kind, c);
        lemma_branch_ok(s.index, keys, ts, i, kind, c);
    }
    lemma_alternatives_width(s, keys, ts, bs, bs.len() as int);
    let count = bs.len() + 1;
    assert(w * count <= w * last) by (nonlinear_arith)
        requires
            count <= last,
            w >= 0,
    ;
    let narrow = projected(wide.vars, v, wide.rows);
    law_rows_in_order(narrow, v.len());
    let once = rows_in_order(narrow);
    assert(sliced(once, 0, None) =~= once);
    assert(t.rows == once && t.vars == v);
    assert forall|row: Seq<u32>| #[trigger] t.rows.contains(row) <==> row.len() == v.len() && entailed(
        set,
        keys,
        ts,
        assigned(v, row),
    ) by {
        lemma_projected(wide, v, row);
        lemma_entailed(s, keys, ts, n, row);
    }
    assert forall|a: int, b: int| 0 <= a < once.len() && 0 <= b < once.len() && a != b implies once[a]
        != once[b] by {
        if a < b {
            assert(row_lt(once[a], once[b]));
            lemma_row_not_before_itself(once[a], 0);
        } else {
            assert(row_lt(once[b], once[a]));
            lemma_row_not_before_itself(once[b], 0);
        }
    }
}

proof fn lemma_row_not_before_itself(a: Seq<u32>, i: int)
    requires
        0 <= i,
    ensures
        !row_lt_from(a, a, i),
    decreases a.len() - i,
{
    if i < a.len() {
        lemma_row_not_before_itself(a, i + 1);
    }
}


// --- Whole patterns ----------------------------------------------------------------------

/// The second pattern is the first with inference in all its basic graph patterns, and
/// otherwise the same.
pub open spec fn infers(p: PatternView, q: PatternView) -> bool
    decreases p,
{
    match (p, q) {
        (PatternView::Bgp(ts), _) => exists|n: u64| q == (#[trigger] rewritten(PatternView::Bgp(ts), n)).0,
        (PatternView::Join(a, b), PatternView::Join(x, y)) => infers(*a, *x) && infers(*b, *y),
        (PatternView::LeftJoin(a, b, e), PatternView::LeftJoin(x, y, f)) => infers(*a, *x) && infers(*b, *y) && e
            == f,
        (PatternView::Union(a, b), PatternView::Union(x, y)) => infers(*a, *x) && infers(*b, *y),
        (PatternView::Minus(a, b), PatternView::Minus(x, y)) => infers(*a, *x) && infers(*b, *y),
        (PatternView::Filter(e, a), PatternView::Filter(f, x)) => infers(*a, *x) && e == f,
        (PatternView::Extend(a, v, e), PatternView::Extend(x, w, f)) => infers(*a, *x) && v == w && e == f,
        (PatternView::Group(by, aggs, a), PatternView::Group(cy, bggs, x)) => infers(*a, *x) && by == cy && aggs
            == bggs,
        (PatternView::Project(v, a), PatternView::Project(w, x)) => infers(*a, *x) && v == w,
        (PatternView::Distinct(a), PatternView::Distinct(x)) => infers(*a, *x),
        (PatternView::Reduced(a), PatternView::Reduced(x)) => infers(*a, *x),
        (PatternView::Slice(i, m, a), PatternView::Slice(j, n, x)) => infers(*a, *x) && i == j && m == n,
        (PatternView::Order(o, a), PatternView::Order(r, x)) => infers(*a, *x) && o == r,
        (PatternView::Path(_, _, _), _) => p == q,
        (PatternView::Values, _) => p == q,
        (PatternView::Service(_), _) => p == q,
        (PatternView::Graph(_), _) => p == q,
        _ => false,
    }
}

/// Inference reaches every basic graph pattern of a query and changes nothing else.
pub proof fn law_inference_throughout(p: PatternView, n: u64)
    ensures
        infers(p, rewritten(p, n).0),
    decreases p,
{
    match p {
        PatternView::Bgp(ts) => {
            assert(rewritten(p, n).0 == rewritten(PatternView::Bgp(ts), n).0);
        },
        PatternView::Join(a, b) => {
            law_inference_throughout(*a, n);
            law_inference_throughout(*b, rewritten(*a, n).1);
        },
        PatternView::LeftJoin(a, b, _) => {
            law_inference_throughout(*a, n);
            law_inference_throughout(*b, rewritten(*a, n).1);
        },
        PatternView::Union(a, b) => {
            law_inference_throughout(*a, n);
            law_inference_throughout(*b, rewritten(*a, n).1);
        },
        PatternView::Minus(a, b) => {
            law_inference_throughout(*a, n);
            law_inference_throughout(*b, rewritten(*a, n).1);
        },
        PatternView::Filter(_, q) => law_inference_throughout(*q, n),
        PatternView::Extend(q, _, _) => law_inference_throughout(*q, n),
        PatternView::Group(_, _, q) => law_inference_throughout(*q, n),
        PatternView::Project(_, q) => law_inference_throughout(*q, n),
        PatternView::Distinct(q) => law_inference_throughout(*q, n),
        PatternView::Reduced(q) => law_inference_throughout(*q, n),
        PatternView::Slice(_, _, q) => law_inference_throughout(*q, n),
        PatternView::Order(_, q) => law_inference_throughout(*q, n),
        _ => {},
    }
}

/// A query is evaluated with inference exactly if that is asked for.
pub proof fn law_asked_inference(p: PatternView)
    ensures
        with_inference(p, false) == p,
        infers(p, with_inference(p, true)),
{
    law_inference_throughout(p, 0);
}

} // verus!
