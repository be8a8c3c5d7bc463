//! What joins and unions are, column by column: a join has the rows whose parts
//! both sides have, and a union shows what either side shows.

use crate::hypertrie::executor::{lemma_place_bounds, place};
use crate::hypertrie::planner::lemma_merged_names;
use crate::hypertrie::rows::{padded, picked};
use crate::hypertrie::NULL_ID;
use crate::sparql::tables::{
    aligned, any_row, join_tables, join_vars, joined_row, joined_rows, left_key, matches_of, new_cols,
    right_key, shared_cols, table_ok, union_tables, union_vars, Condition, Table,
};
use vstd::prelude::*;

verus! {

/// Some row of the table has these values in the columns `v`.
pub open spec fn shows(t: Table, v: Seq<Seq<char>>, row: Seq<u32>) -> bool {
    exists|k: int| 0 <= k < t.rows.len() && aligned(v, t.vars, #[trigger] t.rows[k]) == row
}

/// A column is found at its place.
pub proof fn lemma_place_at(v: Seq<Seq<char>>, c: int)
    requires
        v.no_duplicates(),
        0 <= c < v.len(),
    ensures
        place(v, v[c]) == c,
{
    lemma_place_bounds(v, v[c]);
    assert(v.contains(v[c]));
}

// --- Joins -------------------------------------------------------------------------

/// The shared columns are exactly those that the left side has, and the new ones
/// exactly those that it has not.
proof fn lemma_cols(lv: Seq<Seq<char>>, rv: Seq<Seq<char>>)
    requires
        lv.len() <= usize::MAX,
        rv.len() <= usize::MAX,
    ensures
        forall|k: int|
            #![trigger rv[k]]
            0 <= k < rv.len() && place(lv, rv[k]) < lv.len() ==> shared_cols(lv, rv).contains(
                (place(lv, rv[k]) as usize, k as usize),
            ),
        forall|k: int|
            #![trigger rv[k]]
            0 <= k < rv.len() && place(lv, rv[k]) >= lv.len() ==> new_cols(lv, rv).contains(k as usize),
        forall|m: int|
            #![trigger shared_cols(lv, rv)[m]]
            0 <= m < shared_cols(lv, rv).len() ==> {
                let (p, k) = shared_cols(lv, rv)[m];
                k < rv.len() && p < lv.len() && place(lv, rv[k as int]) == p
            },
        forall|m: int|
            #![trigger new_cols(lv, rv)[m]]
            0 <= m < new_cols(lv, rv).len() ==> new_cols(lv, rv)[m] < rv.len() && place(
                lv,
                rv[new_cols(lv, rv)[m] as int],
            ) >= lv.len(),
        new_cols(lv, rv).no_duplicates(),
    decreases rv.len(),
{
    if rv.len() > 0 {
        let rest = rv.drop_last();
        lemma_cols(lv, rest);
        lemma_place_bounds(lv, rv.last());
        let s0 = shared_cols(lv, rest);
        let s1 = shared_cols(lv, rv);
        let n0 = new_cols(lv, rest);
        let n1 = new_cols(lv, rv);
        let end = rv.len() - 1;
        assert forall|k: int|
            #![trigger rv[k]]
            0 <= k < rv.len() && place(lv, rv[k]) < lv.len() implies s1.contains(
            (place(lv, rv[k]) as usize, k as usize),
        ) by {
            let want = (place(lv, rv[k]) as usize, k as usize);
            if k < end {
                assert(rest[k] == rv[k]);
                assert(s0.contains(want));
                let m = choose|m: int| 0 <= m < s0.len() && s0[m] == want;
                assert(s1[m] == want);
            } else {
                assert(s1[s1.len() - 1] == want);
            }
        }
        assert forall|k: int|
            #![trigger rv[k]]
            0 <= k < rv.len() && place(lv, rv[k]) >= lv.len() implies n1.contains(k as usize) by {
            if k < end {
                assert(rest[k] == rv[k]);
                assert(n0.contains(k as usize));
                let m = choose|m: int| 0 <= m < n0.len() && n0[m] == k as usize;
                assert(n1[m] == k as usize);
            } else {
                assert(n1[n1.len() - 1] == k as usize);
            }
        }
        assert forall|m: int| #![trigger s1[m]] 0 <= m < s1.len() implies ({
            let (p, k) = s1[m];
            k < rv.len() && p < lv.len() && place(lv, rv[k as int]) == p
        }) by {
            if m < s0.len() {
                assert(s1[m] == s0[m]);
                assert(rest[s0[m].1 as int] == rv[s0[m].1 as int]);
            }
        }
        assert forall|m: int| #![trigger n1[m]] 0 <= m < n1.len() implies n1[m] < rv.len() && place(
            lv,
            rv[n1[m] as int],
        ) >= lv.len() by {
            if m < n0.len() {
                assert(n1[m] == n0[m]);
                assert(rest[n0[m] as int] == rv[n0[m] as int]);
            }
        }
        assert forall|a: int, b: int| 0 <= a < n1.len() && 0 <= b < n1.len() && a != b implies n1[a]
            != n1[b] by {
            if a < n0.len() && b < n0.len() {
                assert(n0[a] != n0[b]);
            } else if a < n0.len() {
                assert(n0[a] < rest.len());
            } else if b < n0.len() {
                assert(n0[b] < rest.len());
            }
        }
    }
}

/// The columns of a join are those of both sides, each once, the left ones first.
pub proof fn lemma_join_vars(lv: Seq<Seq<char>>, rv: Seq<Seq<char>>)
    requires
        lv.len() <= usize::MAX,
        rv.len() <= usize::MAX,
        lv.no_duplicates(),
        rv.no_duplicates(),
    ensures
        join_vars(lv, rv).no_duplicates(),
        join_vars(lv, rv).len() == lv.len() + new_cols(lv, rv).len(),
        forall|n: Seq<char>| #[trigger]
            join_vars(lv, rv).contains(n) <==> lv.contains(n) || rv.contains(n),
{
    lemma_cols(lv, rv);
    let jv = join_vars(lv, rv);
    let fresh = new_cols(lv, rv);
    assert forall|a: int, b: int| 0 <= a < jv.len() && 0 <= b < jv.len() && a != b implies jv[a]
        != jv[b] by {
        lemma_distinct_columns(lv, rv, a, b);
    }
    assert forall|n: Seq<char>| #[trigger] jv.contains(n) <==> lv.contains(n) || rv.contains(n) by {
        if jv.contains(n) {
            let c = choose|c: int| 0 <= c < jv.len() && jv[c] == n;
            if c < lv.len() {
                assert(lv[c] == n);
            } else {
                assert(rv[fresh[c - lv.len()] as int] == n);
            }
        }
        if lv.contains(n) {
            let c = choose|c: int| 0 <= c < lv.len() && lv[c] == n;
            assert(jv[c] == n);
        } else if rv.contains(n) {
            let k = choose|k: int| 0 <= k < rv.len() && rv[k] == n;
            lemma_place_bounds(lv, rv[k]);
            assert(fresh.contains(k as usize));
            let m = choose|m: int| 0 <= m < fresh.len() && fresh[m] == k as usize;
            assert(jv[lv.len() + m] == n);
        }
    }
}

proof fn lemma_distinct_columns(lv: Seq<Seq<char>>, rv: Seq<Seq<char>>, a: int, b: int)
    requires
        lv.len() <= usize::MAX,
        rv.len() <= usize::MAX,
        lv.no_duplicates(),
        rv.no_duplicates(),
        0 <= a < join_vars(lv, rv).len(),
        0 <= b < join_vars(lv, rv).len(),
        a != b,
    ensures
        join_vars(lv, rv)[a] != join_vars(lv, rv)[b],
{
    lemma_cols(lv, rv);
    let fresh = new_cols(lv, rv);
    let n = lv.len();
    if a < n && b < n {
        assert(lv[a] != lv[b]);
    } else if a >= n && b >= n {
        assert(fresh[a - n] != fresh[b - n]);
    } else if a < n {
        lemma_place_bounds(lv, rv[fresh[b - n] as int]);
        assert(lv.contains(lv[a]));
    } else {
        lemma_place_bounds(lv, rv[fresh[a - n] as int]);
        assert(lv.contains(lv[b]));
    }
}

/// A row continues a left row by a right row exactly if these are its parts.
pub proof fn lemma_row_parts(
    lv: Seq<Seq<char>>,
    rv: Seq<Seq<char>>,
    l: Seq<u32>,
    r: Seq<u32>,
    row: Seq<u32>,
)
    requires
        lv.len() <= usize::MAX,
        rv.len() <= usize::MAX,
        lv.no_duplicates(),
        rv.no_duplicates(),
        l.len() == lv.len(),
        r.len() == rv.len(),
    ensures
        (row == l + picked(r, new_cols(lv, rv)) && left_key(l, shared_cols(lv, rv)) == right_key(
            r,
            shared_cols(lv, rv),
        )) <==> (row.len() == join_vars(lv, rv).len() && aligned(lv, join_vars(lv, rv), row) == l
            && aligned(rv, join_vars(lv, rv), row) == r),
{
    lemma_cols(lv, rv);
    lemma_join_vars(lv, rv);
    let jv = join_vars(lv, rv);
    let fresh = new_cols(lv, rv);
    let shared = shared_cols(lv, rv);
    let n = lv.len() as int;
    assert forall|c: int| 0 <= c < n implies place(jv, #[trigger] lv[c]) == c by {
        assert(jv[c] == lv[c]);
        lemma_place_at(jv, c);
    }
    assert forall|m: int| 0 <= m < fresh.len() implies place(
        jv,
        rv[#[trigger] fresh[m] as int],
    ) == n + m by {
        assert(jv[n + m] == rv[fresh[m] as int]);
        lemma_place_at(jv, n + m);
    }
    assert forall|k: int| #![trigger rv[k]] 0 <= k < rv.len() && place(lv, rv[k]) < n implies place(
        jv,
        rv[k],
    ) == place(lv, rv[k]) by {
        lemma_place_bounds(lv, rv[k]);
    }
    if row == l + picked(r, fresh) && left_key(l, shared) == right_key(r, shared) {
        assert(aligned(lv, jv, row) =~= l);
        assert forall|k: int| 0 <= k < rv.len() implies aligned(rv, jv, row)[k] == r[k] by {
            lemma_place_bounds(lv, rv[k]);
            if place(lv, rv[k]) < n {
                let want = (place(lv, rv[k]) as usize, k as usize);
                assert(shared.contains(want));
                let m = choose|m: int| 0 <= m < shared.len() && shared[m] == want;
                assert(left_key(l, shared)[m] == right_key(r, shared)[m]);
            } else {
                assert(fresh.contains(k as usize));
                let m = choose|m: int| 0 <= m < fresh.len() && fresh[m] == k as usize;
                assert(row[n + m] == r[k]);
            }
        }
        assert(aligned(rv, jv, row) =~= r);
    }
    if row.len() == jv.len() && aligned(lv, jv, row) == l && aligned(rv, jv, row) == r {
        assert forall|c: int| 0 <= c < row.len() implies row[c] == (l + picked(r, fresh))[c] by {
            if c < n {
                assert(l[c] == row[place(jv, lv[c])]);
            } else {
                let k = fresh[c - n] as int;
                assert(r[k] == row[place(jv, rv[k])]);
            }
        }
        assert(row =~= l + picked(r, fresh));
        assert forall|m: int| 0 <= m < shared.len() implies left_key(l, shared)[m] == right_key(
            r,
            shared,
        )[m] by {
            let (p, k) = shared[m];
            assert(l[p as int] == row[place(jv, lv[p as int])]);
            assert(r[k as int] == row[place(jv, rv[k as int])]);
        }
        assert(left_key(l, shared) =~= right_key(r, shared));
    }
}

proof fn lemma_matches(
    lv: Seq<Seq<char>>,
    rv: Seq<Seq<char>>,
    l: Seq<u32>,
    right: Seq<Seq<u32>>,
    cond: Condition,
    row: Seq<u32>,
)
    ensures
        matches_of(lv, rv, l, right, cond).contains(row) <==> cond(row) && exists|j: int|
            0 <= j < right.len() && row == l + picked(#[trigger] right[j], new_cols(lv, rv))
                && left_key(l, shared_cols(lv, rv)) == right_key(right[j], shared_cols(lv, rv)),
    decreases right.len(),
{
    let shared = shared_cols(lv, rv);
    let fresh = new_cols(lv, rv);
    let all = matches_of(lv, rv, l, right, cond);
    if right.len() > 0 {
        let rest = right.drop_last();
        lemma_matches(lv, rv, l, rest, cond, row);
        let before = matches_of(lv, rv, l, rest, cond);
        let last = l + picked(right.last(), fresh);
        let hit = left_key(l, shared) == right_key(right.last(), shared);
        if all.contains(row) {
            let c = choose|c: int| 0 <= c < all.len() && all[c] == row;
            if c < before.len() {
                assert(before[c] == row);
                let j = choose|j: int|
                    0 <= j < rest.len() && row == l + picked(#[trigger] rest[j], fresh) && left_key(
                        l,
                        shared,
                    ) == right_key(rest[j], shared);
                assert(right[j] == rest[j]);
            } else {
                assert(row == last && hit);
                assert(right[right.len() - 1] == right.last());
            }
        }
        if cond(row) && exists|j: int|
            0 <= j < right.len() && row == l + picked(#[trigger] right[j], fresh) && left_key(l, shared)
                == right_key(right[j], shared) {
            let j = choose|j: int|
                0 <= j < right.len() && row == l + picked(#[trigger] right[j], fresh) && left_key(
                    l,
                    shared,
                ) == right_key(right[j], shared);
            if j < rest.len() {
                assert(rest[j] == right[j]);
                assert(before.contains(row));
                let c = choose|c: int| 0 <= c < before.len() && before[c] == row;
                assert(all[c] == row);
            } else {
                assert(all[all.len() - 1] == row);
            }
        }
    }
}

proof fn lemma_joined(
    lv: Seq<Seq<char>>,
    rv: Seq<Seq<char>>,
    left: Seq<Seq<u32>>,
    right: Seq<Seq<u32>>,
    cond: Condition,
    outer: bool,
    row: Seq<u32>,
)
    ensures
        joined_rows(lv, rv, left, right, cond, outer).contains(row) <==> exists|i: int|
            0 <= i < left.len() && joined_row(lv, rv, #[trigger] left[i], right, cond, outer).contains(row),
    decreases left.len(),
{
    let all = joined_rows(lv, rv, left, right, cond, outer);
    if left.len() > 0 {
        let rest = left.drop_last();
        lemma_joined(lv, rv, rest, right, cond, outer, row);
        let before = joined_rows(lv, rv, rest, right, cond, outer);
        let own = joined_row(lv, rv, left.last(), right, cond, outer);
        assert(all == before + own);
        if all.contains(row) {
            let c = choose|c: int| 0 <= c < all.len() && all[c] == row;
            if c < before.len() {
                assert(before[c] == row);
                let i = choose|i: int|
                    0 <= i < rest.len() && joined_row(lv, rv, #[trigger] rest[i], right, cond, outer).contains(
                        row,
                    );
                assert(left[i] == rest[i]);
            } else {
                assert(own[c - before.len()] == row);
                assert(left[left.len() - 1] == left.last());
            }
        }
        if exists|i: int|
            0 <= i < left.len() && joined_row(lv, rv, #[trigger] left[i], right, cond, outer).contains(row) {
            let i = choose|i: int|
                0 <= i < left.len() && joined_row(lv, rv, #[trigger] left[i], right, cond, outer).contains(
                    row,
                );
            if i < rest.len() {
                assert(rest[i] == left[i]);
                assert(before.contains(row));
                let c = choose|c: int| 0 <= c < before.len() && before[c] == row;
                assert(all[c] == row);
            } else {
                assert(own.contains(row));
                let c = choose|c: int| 0 <= c < own.len() && own[c] == row;
                assert(all[before.len() + c] == row);
            }
        }
    }
}

/// The row continues a left row by a right row and passes the condition.
pub open spec fn joins(l: Table, r: Table, cond: Condition, row: Seq<u32>) -> bool {
    let vars = join_vars(l.vars, r.vars);
    &&& row.len() == vars.len()
    &&& l.rows.contains(aligned(l.vars, vars, row))
    &&& r.rows.contains(aligned(r.vars, vars, row))
    &&& cond(row)
}

/// The continuations of a left row are the rows that join and have it as their
/// left part.
proof fn lemma_continuations(l: Table, r: Table, cond: Condition, i: int, row: Seq<u32>)
    requires
        table_ok(l),
        table_ok(r),
        l.vars.no_duplicates(),
        r.vars.no_duplicates(),
        l.vars.len() <= usize::MAX,
        r.vars.len() <= usize::MAX,
        0 <= i < l.rows.len(),
    ensures
        matches_of(l.vars, r.vars, l.rows[i], r.rows, cond).contains(row) <==> joins(l, r, cond, row)
            && aligned(l.vars, join_vars(l.vars, r.vars), row) == l.rows[i],
{
    let vars = join_vars(l.vars, r.vars);
    let fresh = new_cols(l.vars, r.vars);
    let shared = shared_cols(l.vars, r.vars);
    let b = aligned(r.vars, vars, row);
    lemma_matches(l.vars, r.vars, l.rows[i], r.rows, cond, row);
    if matches_of(l.vars, r.vars, l.rows[i], r.rows, cond).contains(row) {
        let j = choose|j: int|
            0 <= j < r.rows.len() && row == l.rows[i] + picked(#[trigger] r.rows[j], fresh) && left_key(
                l.rows[i],
                shared,
            ) == right_key(r.rows[j], shared);
        lemma_row_parts(l.vars, r.vars, l.rows[i], r.rows[j], row);
        assert(r.rows[j] == b);
    }
    if joins(l, r, cond, row) && aligned(l.vars, vars, row) == l.rows[i] {
        let j = choose|j: int| 0 <= j < r.rows.len() && r.rows[j] == b;
        lemma_row_parts(l.vars, r.vars, l.rows[i], r.rows[j], row);
    }
}

/// A join has exactly the rows whose left part is a row of the left side, whose
/// right part is a row of the right side, and which pass the condition.
pub proof fn law_join(l: Table, r: Table, cond: Condition, row: Seq<u32>)
    requires
        table_ok(l),
        table_ok(r),
        l.vars.no_duplicates(),
        r.vars.no_duplicates(),
        l.vars.len() <= usize::MAX,
        r.vars.len() <= usize::MAX,
    ensures
        join_tables(l, r, cond, false).rows.contains(row) <==> joins(l, r, cond, row),
{
    lemma_joined(l.vars, r.vars, l.rows, r.rows, cond, false, row);
    if join_tables(l, r, cond, false).rows.contains(row) {
        let i = choose|i: int|
            0 <= i < l.rows.len() && joined_row(
                l.vars,
                r.vars,
                #[trigger] l.rows[i],
                r.rows,
                cond,
                false,
            ).contains(row);
        lemma_continuations(l, r, cond, i, row);
    }
    if joins(l, r, cond, row) {
        let a = aligned(l.vars, join_vars(l.vars, r.vars), row);
        let i = choose|i: int| 0 <= i < l.rows.len() && l.rows[i] == a;
        lemma_continuations(l, r, cond, i, row);
    }
}

/// Some joined row has this left part.
pub open spec fn continues(l: Table, r: Table, cond: Condition, left: Seq<u32>) -> bool {
    exists|row: Seq<u32>| #[trigger]
        joins(l, r, cond, row) && aligned(l.vars, join_vars(l.vars, r.vars), row) == left
}

/// A left join has the rows of the join and, for every left row that no joined
/// row continues, that row with the new columns unbound.
pub proof fn law_left_join(l: Table, r: Table, cond: Condition, row: Seq<u32>)
    requires
        table_ok(l),
        table_ok(r),
        l.vars.no_duplicates(),
        r.vars.no_duplicates(),
        l.vars.len() <= usize::MAX,
        r.vars.len() <= usize::MAX,
    ensures
        join_tables(l, r, cond, true).rows.contains(row) <==> {
            ||| joins(l, r, cond, row)
            ||| exists|i: int|
                0 <= i < l.rows.len() && !continues(l, r, cond, #[trigger] l.rows[i]) && row == padded(
                    l.rows[i],
                    NULL_ID,
                    join_vars(l.vars, r.vars).len(),
                )
        },
{
    let vars = join_vars(l.vars, r.vars);
    lemma_joined(l.vars, r.vars, l.rows, r.rows, cond, true, row);
    assert forall|i: int| 0 <= i < l.rows.len() implies (matches_of(
        l.vars,
        r.vars,
        #[trigger] l.rows[i],
        r.rows,
        cond,
    ).len() > 0) == continues(l, r, cond, l.rows[i]) by {
        let found = matches_of(l.vars, r.vars, l.rows[i], r.rows, cond);
        if found.len() > 0 {
            assert(found.contains(found[0]));
            lemma_continuations(l, r, cond, i, found[0]);
        }
        if continues(l, r, cond, l.rows[i]) {
            let x = choose|x: Seq<u32>| #[trigger]
                joins(l, r, cond, x) && aligned(l.vars, vars, x) == l.rows[i];
            lemma_continuations(l, r, cond, i, x);
        }
    }
    if join_tables(l, r, cond, true).rows.contains(row) {
        let i = choose|i: int|
            0 <= i < l.rows.len() && joined_row(
                l.vars,
                r.vars,
                #[trigger] l.rows[i],
                r.rows,
                cond,
                true,
            ).contains(row);
        lemma_continuations(l, r, cond, i, row);
        if !continues(l, r, cond, l.rows[i]) {
            let one = joined_row(l.vars, r.vars, l.rows[i], r.rows, cond, true);
            assert(one == seq![padded(l.rows[i], NULL_ID, vars.len())]);
            let k = choose|k: int| 0 <= k < one.len() && one[k] == row;
            assert(row == padded(l.rows[i], NULL_ID, vars.len()));
        }
    }
    if joins(l, r, cond, row) {
        let a = aligned(l.vars, vars, row);
        let i = choose|i: int| 0 <= i < l.rows.len() && l.rows[i] == a;
        lemma_continuations(l, r, cond, i, row);
        assert(joined_row(l.vars, r.vars, l.rows[i], r.rows, cond, true).contains(row));
    }
    if exists|i: int|
        0 <= i < l.rows.len() && !continues(l, r, cond, #[trigger] l.rows[i]) && row == padded(
            l.rows[i],
            NULL_ID,
            vars.len(),
        ) {
        let i = choose|i: int|
            0 <= i < l.rows.len() && !continues(l, r, cond, #[trigger] l.rows[i]) && row == padded(
                l.rows[i],
                NULL_ID,
                vars.len(),
            );
        let one = joined_row(l.vars, r.vars, l.rows[i], r.rows, cond, true);
        assert(one[0] == row);
        assert(one.contains(row));
    }
}

/// A join with an empty side has no rows.
pub proof fn lemma_join_nothing(l: Table, r: Table, row: Seq<u32>)
    requires
        r.rows.len() == 0,
    ensures
        !join_tables(l, r, any_row(), false).rows.contains(row),
{
    lemma_joined(l.vars, r.vars, l.rows, r.rows, any_row(), false, row);
}

// --- Unions ------------------------------------------------------------------------

/// A row keeps its values when it is put in columns that its own are among.
proof fn lemma_aligned_twice(
    v: Seq<Seq<char>>,
    wide: Seq<Seq<char>>,
    own: Seq<Seq<char>>,
    row: Seq<u32>,
)
    requires
        forall|n: Seq<char>| own.contains(n) ==> #[trigger] wide.contains(n),
    ensures
        aligned(v, wide, aligned(wide, own, row)) == aligned(v, own, row),
{
    let a = aligned(v, wide, aligned(wide, own, row));
    let b = aligned(v, own, row);
    assert forall|c: int| 0 <= c < v.len() implies a[c] == b[c] by {
        lemma_place_bounds(wide, v[c]);
        lemma_place_bounds(own, v[c]);
    }
    assert(a =~= b);
}

/// A union shows, in any columns, exactly what one of its sides shows.
pub proof fn law_union(l: Table, r: Table, v: Seq<Seq<char>>, row: Seq<u32>)
    ensures
        shows(union_tables(l, r), v, row) <==> shows(l, v, row) || shows(r, v, row),
{
    let u = union_tables(l, r);
    let vars = union_vars(l.vars, r.vars);
    lemma_merged_names(l.vars, r.vars);
    assert forall|k: int| 0 <= k < u.rows.len() implies aligned(v, u.vars, #[trigger] u.rows[k])
        == if k < l.rows.len() {
        aligned(v, l.vars, l.rows[k])
    } else {
        aligned(v, r.vars, r.rows[k - l.rows.len()])
    } by {
        if k < l.rows.len() {
            lemma_aligned_twice(v, vars, l.vars, l.rows[k]);
        } else {
            lemma_aligned_twice(v, vars, r.vars, r.rows[k - l.rows.len()]);
        }
    }
    if shows(u, v, row) {
        let k = choose|k: int| 0 <= k < u.rows.len() && aligned(v, u.vars, #[trigger] u.rows[k]) == row;
        if k < l.rows.len() {
            assert(aligned(v, l.vars, l.rows[k]) == row);
        } else {
            assert(aligned(v, r.vars, r.rows[k - l.rows.len()]) == row);
        }
    }
    if shows(l, v, row) {
        let k = choose|k: int| 0 <= k < l.rows.len() && aligned(v, l.vars, #[trigger] l.rows[k]) == row;
        assert(aligned(v, u.vars, u.rows[k]) == row);
    }
    if shows(r, v, row) {
        let k = choose|k: int| 0 <= k < r.rows.len() && aligned(v, r.vars, #[trigger] r.rows[k]) == row;
        assert(aligned(v, u.vars, u.rows[l.rows.len() + k]) == row);
    }
}

} // verus!
