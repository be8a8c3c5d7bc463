//! What each operation on patterns gives, in terms of what its parts give.

use crate::hypertrie::dictionary::encodable;
use crate::hypertrie::engine::hybrid_rows;
use crate::hypertrie::executor::{kept, lemma_place_bounds, place};
use crate::hypertrie::planner::{lemma_merged_names, PatTriple};
use crate::hypertrie::rows::{
    first_rows, law_rows_in_order, padded, picked, row_lt, row_lt_from, rows_in_order, sliced,
};
use crate::hypertrie::NULL_ID;
use crate::sparql::algebra::{AggregateView, ExprView, OrderByView, PatternView, TripleView};
use crate::sparql::bgp::id_triples;
use crate::sparql::bind::{bind_id, bound_rows, val_term};
use crate::sparql::expr::{ev, opt_truth, Scope};
use crate::sparql::group_laws::{
    firsts, group_key, group_row_right, law_grouping, lemma_group_key, lemma_more_firsts,
    lemma_same_firsts, taken,
};
use crate::sparql::grouping::group_keys;
use crate::sparql::modifiers::{
    as_distinct, asked, first_missing, in_asked_order, is_modifier, lemma_peeled_smaller, peeled, projected,
    shown,
};
use crate::sparql::numbers::Replies;
use crate::sparql::solve::{
    answered, condition_problem, join_condition, passes, solved, unread, unsupported_among,
    unsupported_in, Setting,
};
use crate::sparql::run::{access_for, Access};
use crate::sparql::solve_laws::{adds_terms, grown, law_limit_preserves_answers};
use crate::sparql::sort_laws::{is_sorted, law_order_by, Criteria};
use crate::sparql::table_laws::{lemma_join_vars, lemma_place_at, lemma_row_parts};
use crate::sparql::tables::{
    aligned, any_row, join_tables, join_vars, joined_row, joined_rows, left_key, matches_of,
    new_cols, right_key, shared_cols, table_ok, union_tables, union_vars, Condition, Table,
};
use crate::sparql::value_laws::{is_column, is_term_value, law_stored_term_has_the_value, numbers_round_trip};
use crate::sparql::values::{id_value, Val};
use crate::text::has_prefix;
use vstd::prelude::*;

verus! {

// --- Filters ---------------------------------------------------------------------------

/// The expression is true in a row.
pub open spec fn is_true(num: Replies, keys: Seq<Seq<char>>, vars: Seq<Seq<char>>, row: Seq<u32>, e: ExprView) -> bool {
    opt_truth(ev(e, Scope { num, keys, vars, row })) == Some(true)
}

proof fn lemma_kept_is_filter(s: Seq<Seq<u32>>, keep: spec_fn(Seq<u32>) -> bool)
    ensures
        kept(s, keep) == s.filter(keep),
    decreases s.len(),
{
    reveal(Seq::filter);
    if s.len() > 0 {
        lemma_kept_is_filter(s.drop_last(), keep);
    } else {
        assert(s =~= Seq::<Seq<u32>>::empty());
    }
}

/// A filter keeps, in their order, the rows in which its expression is true; a row in which
/// it is false or an error goes.
pub proof fn law_filter_pattern(s: Setting, keys: Seq<Seq<char>>, e: ExprView, q: PatternView, t: Table)
    requires
        solved(s, keys, q, None).0 == Ok::<Table, Seq<char>>(t),
    ensures
        ({
            let k = solved(s, keys, q, None).1;
            solved(s, keys, PatternView::Filter(e, Box::new(q)), None) == (
                Ok::<Table, Seq<char>>(
                    Table {
                        vars: t.vars,
                        rows: t.rows.filter(|row: Seq<u32>| is_true(s.num, k, t.vars, row, e)),
                    },
                ),
                k,
            )
        }),
{
    let k = solved(s, keys, q, None).1;
    let p = passes(s.num, k, t.vars, e);
    lemma_kept_is_filter(t.rows, p);
    assert(p =~= |row: Seq<u32>| is_true(s.num, k, t.vars, row, e));
}

// --- Joins -----------------------------------------------------------------------------

/// The row is row `l` of the left columns and row `r` of the right ones, together.
#[verifier::opaque]
pub open spec fn combines(lv: Seq<Seq<char>>, rv: Seq<Seq<char>>, l: Seq<u32>, r: Seq<u32>, row: Seq<u32>) -> bool {
    let vars = join_vars(lv, rv);
    &&& row.len() == vars.len()
    &&& group_key(lv, vars, row, l)
    &&& group_key(rv, vars, row, r)
}

/// The pairs come in the order of their left rows, then of their right rows, each once.
pub open spec fn in_turn(pairs: Seq<(int, int)>) -> bool {
    forall|a: int, b: int|
        #![trigger pairs[a], pairs[b]]
        0 <= a < b < pairs.len() ==> pairs[a].0 < pairs[b].0 || (pairs[a].0 == pairs[b].0 && pairs[a].1
            < pairs[b].1)
}

/// Row `k` comes from the pair of places `pairs[k]`.
pub open spec fn joined_from(
    l: Table,
    r: Table,
    cond: Condition,
    rows: Seq<Seq<u32>>,
    pairs: Seq<(int, int)>,
    k: int,
) -> bool {
    &&& 0 <= pairs[k].0 < l.rows.len()
    &&& 0 <= pairs[k].1 < r.rows.len()
    &&& combines(l.vars, r.vars, l.rows[pairs[k].0], r.rows[pairs[k].1], rows[k])
    &&& cond(rows[k])
}

/// Every row comes from a pair of rows that agree in their common columns and pass the
/// condition, and every such pair gives one row.
pub open spec fn is_join(
    l: Table,
    r: Table,
    cond: Condition,
    rows: Seq<Seq<u32>>,
    pairs: Seq<(int, int)>,
) -> bool {
    &&& pairs.len() == rows.len()
    &&& in_turn(pairs)
    &&& forall|k: int| 0 <= k < rows.len() ==> #[trigger] joined_from(l, r, cond, rows, pairs, k)
    &&& forall|i: int, j: int, row: Seq<u32>|
        0 <= i < l.rows.len() && 0 <= j < r.rows.len() && #[trigger] combines(
            l.vars,
            r.vars,
            l.rows[i],
            r.rows[j],
            row,
        ) && cond(row) ==> pairs.contains((i, j))
}

/// The continuations of left row `i`, with the places of their right rows.
proof fn lemma_matches_at(l: Table, r: Table, cond: Condition, i: int, n: int) -> (js: Seq<int>)
    requires
        table_ok(l),
        table_ok(r),
        l.vars.no_duplicates(),
        r.vars.no_duplicates(),
        l.vars.len() <= usize::MAX,
        r.vars.len() <= usize::MAX,
        0 <= i < l.rows.len(),
        0 <= n <= r.rows.len(),
    ensures
        ({
            let found = matches_of(l.vars, r.vars, l.rows[i], r.rows.take(n), cond);
            &&& js.len() == found.len()
            &&& forall|a: int, b: int| 0 <= a < b < js.len() ==> #[trigger] js[a] < #[trigger] js[b]
            &&& forall|k: int|
                0 <= k < js.len() ==> 0 <= #[trigger] js[k] < n && combines(
                    l.vars,
                    r.vars,
                    l.rows[i],
                    r.rows[js[k]],
                    found[k],
                ) && cond(found[k])
            &&& forall|j: int, row: Seq<u32>|
                0 <= j < n && #[trigger] combines(l.vars, r.vars, l.rows[i], r.rows[j], row) && cond(row)
                    ==> js.contains(j)
        }),
    decreases n,
{
    let lv = l.vars;
    let rv = r.vars;
    let left = l.rows[i];
    if n == 0 {
        assert(r.rows.take(0) =~= Seq::<Seq<u32>>::empty());
        Seq::empty()
    } else {
        let before = lemma_matches_at(l, r, cond, i, n - 1);
        let part = r.rows.take(n);
        assert(part.drop_last() =~= r.rows.take(n - 1));
        let right = r.rows[n - 1];
        assert(part.last() == right);
        let row = left + picked(right, new_cols(lv, rv));
        let old_found = matches_of(lv, rv, left, r.rows.take(n - 1), cond);
        let found = matches_of(lv, rv, left, part, cond);
        lemma_row_parts(lv, rv, left, right, row);
        lemma_combines(lv, rv, left, right, row);
        let hit = left_key(left, shared_cols(lv, rv)) == right_key(right, shared_cols(lv, rv)) && cond(row);
        let js = if hit {
            before.push(n - 1)
        } else {
            before
        };
        assert forall|k: int| 0 <= k < js.len() implies 0 <= #[trigger] js[k] < n && combines(
            lv,
            rv,
            left,
            r.rows[js[k]],
            found[k],
        ) && cond(found[k]) by {
            if k < before.len() {
                assert(js[k] == before[k]);
                assert(found[k] == old_found[k]);
            }
        }
        assert forall|a: int, b: int| 0 <= a < b < js.len() implies #[trigger] js[a] < #[trigger] js[b] by {
            assert(js[a] == before[a]);
            if b < before.len() {
                assert(js[b] == before[b]);
            }
        }
        assert forall|j: int, other: Seq<u32>|
            0 <= j < n && #[trigger] combines(lv, rv, left, r.rows[j], other) && cond(other) implies js.contains(
            j,
        ) by {
            if j < n - 1 {
                assert(before.contains(j));
                let k = choose|k: int| 0 <= k < before.len() && before[k] == j;
                assert(js[k] == j);
            } else {
                lemma_row_parts(lv, rv, left, right, other);
                lemma_combines(lv, rv, left, right, other);
                assert(other == row);
                assert(js[before.len() as int] == j);
            }
        }
        js
    }
}

proof fn lemma_combines(lv: Seq<Seq<char>>, rv: Seq<Seq<char>>, l: Seq<u32>, r: Seq<u32>, row: Seq<u32>)
    requires
        lv.len() <= usize::MAX,
        rv.len() <= usize::MAX,
        lv.no_duplicates(),
        rv.no_duplicates(),
    ensures
        combines(lv, rv, l, r, row) <==> row.len() == join_vars(lv, rv).len() && aligned(
            lv,
            join_vars(lv, rv),
            row,
        ) == l && aligned(rv, join_vars(lv, rv), row) == r,
{
    reveal(combines);
    lemma_join_vars(lv, rv);
    lemma_group_key(lv, join_vars(lv, rv), row, l);
    lemma_group_key(rv, join_vars(lv, rv), row, r);
}

proof fn lemma_join_pairs(l: Table, r: Table, cond: Condition, n: int) -> (pairs: Seq<(int, int)>)
    requires
        table_ok(l),
        table_ok(r),
        l.vars.no_duplicates(),
        r.vars.no_duplicates(),
        l.vars.len() <= usize::MAX,
        r.vars.len() <= usize::MAX,
        0 <= n <= l.rows.len(),
    ensures
        is_join(
            Table { vars: l.vars, rows: l.rows.take(n) },
            r,
            cond,
            joined_rows(l.vars, r.vars, l.rows.take(n), r.rows, cond, false),
            pairs,
        ),
    decreases n,
{
    let lv = l.vars;
    let rv = r.vars;
    let part = Table { vars: lv, rows: l.rows.take(n) };
    if n == 0 {
        assert(l.rows.take(0) =~= Seq::<Seq<u32>>::empty());
        Seq::empty()
    } else {
        let before = lemma_join_pairs(l, r, cond, n - 1);
        let less = Table { vars: lv, rows: l.rows.take(n - 1) };
        assert(part.rows.drop_last() =~= less.rows);
        let js = lemma_matches_at(l, r, cond, n - 1, r.rows.len() as int);
        assert(r.rows.take(r.rows.len() as int) =~= r.rows);
        let own = matches_of(lv, rv, l.rows[n - 1], r.rows, cond);
        let old_rows = joined_rows(lv, rv, less.rows, r.rows, cond, false);
        let rows = joined_rows(lv, rv, part.rows, r.rows, cond, false);
        assert(rows == old_rows + own);
        let pairs = before + Seq::new(js.len(), |k: int| (n - 1, js[k]));
        assert forall|k: int| 0 <= k < rows.len() implies #[trigger] joined_from(part, r, cond, rows, pairs, k) by {
            if k < old_rows.len() {
                assert(joined_from(less, r, cond, old_rows, before, k));
                assert(pairs[k] == before[k]);
                assert(part.rows[pairs[k].0] == less.rows[pairs[k].0]);
            } else {
                let m = k - old_rows.len();
                assert(pairs[k] == (n - 1, js[m]));
                assert(rows[k] == own[m]);
                assert(0 <= js[m] < r.rows.len());
            }
        }
        assert forall|a: int, b: int|
            #![trigger pairs[a], pairs[b]]
            0 <= a < b < pairs.len() implies pairs[a].0 < pairs[b].0 || (pairs[a].0 == pairs[b].0
            && pairs[a].1 < pairs[b].1) by {
            if b < before.len() {
                assert(pairs[a] == before[a] && pairs[b] == before[b]);
            } else if a < before.len() {
                assert(joined_from(less, r, cond, old_rows, before, a));
                assert(pairs[a] == before[a]);
            } else {
                assert(js[a - before.len()] < js[b - before.len()]);
            }
        }
        assert forall|i: int, j: int, row: Seq<u32>|
            0 <= i < part.rows.len() && 0 <= j < r.rows.len() && #[trigger] combines(
                lv,
                rv,
                part.rows[i],
                r.rows[j],
                row,
            ) && cond(row) implies pairs.contains((i, j)) by {
            if i < n - 1 {
                assert(part.rows[i] == less.rows[i]);
                assert(combines(less.vars, r.vars, less.rows[i], r.rows[j], row));
                assert(before.contains((i, j)));
                let k = choose|k: int| 0 <= k < before.len() && before[k] == (i, j);
                assert(pairs[k] == (i, j));
            } else {
                assert(combines(lv, rv, l.rows[n - 1], r.rows[j], row));
                assert(js.contains(j));
                let k = choose|k: int| 0 <= k < js.len() && js[k] == j;
                assert(pairs[before.len() + k] == (i, j));
            }
        }
        pairs
    }
}

/// A join has one row for each pair of rows that agree in their common columns and pass the
/// condition: the two rows together. They come in the order of the left rows, then of the
/// right ones.
pub proof fn law_join_rows(l: Table, r: Table, cond: Condition)
    requires
        table_ok(l),
        table_ok(r),
        l.vars.no_duplicates(),
        r.vars.no_duplicates(),
        l.vars.len() <= usize::MAX,
        r.vars.len() <= usize::MAX,
    ensures
        exists|pairs: Seq<(int, int)>| #[trigger]
            is_join(l, r, cond, join_tables(l, r, cond, false).rows, pairs),
        join_tables(l, r, cond, false).vars.no_duplicates(),
        forall|n: Seq<char>| #[trigger]
            join_tables(l, r, cond, false).vars.contains(n) <==> l.vars.contains(n) || r.vars.contains(n),
        join_tables(l, r, cond, false).vars.take(l.vars.len() as int) == l.vars,
{
    let pairs = lemma_join_pairs(l, r, cond, l.rows.len() as int);
    assert(l.rows.take(l.rows.len() as int) =~= l.rows);
    assert(Table { vars: l.vars, rows: l.rows.take(l.rows.len() as int) } == l);
    lemma_join_vars(l.vars, r.vars);
    assert(join_vars(l.vars, r.vars).take(l.vars.len() as int) =~= l.vars);
    assert(is_join(l, r, cond, join_tables(l, r, cond, false).rows, pairs));
}

/// Where row `k` of an optional join comes from: a pair of rows, or a left row that no right
/// row goes with, and then what only the right side has is unbound.
pub open spec fn left_joined_from(
    l: Table,
    r: Table,
    cond: Condition,
    rows: Seq<Seq<u32>>,
    pairs: Seq<(int, int)>,
    k: int,
) -> bool {
    ||| joined_from(l, r, cond, rows, pairs, k)
    ||| {
        &&& pairs[k].1 == -1
        &&& 0 <= pairs[k].0 < l.rows.len()
        &&& alone(l.vars, r, cond, l.rows[pairs[k].0])
        &&& rows[k].len() == join_vars(l.vars, r.vars).len()
        &&& rows[k].take(l.vars.len() as int) == l.rows[pairs[k].0]
        &&& forall|c: int| l.vars.len() <= c < rows[k].len() ==> #[trigger] rows[k][c] == NULL_ID
    }
}

/// No right row goes with this left row.
pub open spec fn alone(lv: Seq<Seq<char>>, r: Table, cond: Condition, left: Seq<u32>) -> bool {
    forall|j: int, row: Seq<u32>|
        0 <= j < r.rows.len() && #[trigger] combines(lv, r.vars, left, r.rows[j], row) ==> !cond(row)
}

/// An optional join: the rows of the join and, in their places, the left rows that stay
/// alone.
pub open spec fn is_left_join(
    l: Table,
    r: Table,
    cond: Condition,
    rows: Seq<Seq<u32>>,
    pairs: Seq<(int, int)>,
) -> bool {
    &&& pairs.len() == rows.len()
    &&& in_turn(pairs)
    &&& forall|k: int| 0 <= k < rows.len() ==> #[trigger] left_joined_from(l, r, cond, rows, pairs, k)
    &&& forall|i: int, j: int, row: Seq<u32>|
        0 <= i < l.rows.len() && 0 <= j < r.rows.len() && #[trigger] combines(
            l.vars,
            r.vars,
            l.rows[i],
            r.rows[j],
            row,
        ) && cond(row) ==> pairs.contains((i, j))
    &&& forall|i: int|
        0 <= i < l.rows.len() && #[trigger] alone(l.vars, r, cond, l.rows[i]) ==> pairs.contains((i, -1int))
}

proof fn lemma_left_join_pairs(l: Table, r: Table, cond: Condition, n: int) -> (pairs: Seq<(int, int)>)
    requires
        table_ok(l),
        table_ok(r),
        l.vars.no_duplicates(),
        r.vars.no_duplicates(),
        l.vars.len() <= usize::MAX,
        r.vars.len() <= usize::MAX,
        0 <= n <= l.rows.len(),
    ensures
        is_left_join(
            Table { vars: l.vars, rows: l.rows.take(n) },
            r,
            cond,
            joined_rows(l.vars, r.vars, l.rows.take(n), r.rows, cond, true),
            pairs,
        ),
    decreases n,
{
    let lv = l.vars;
    let rv = r.vars;
    let part = Table { vars: lv, rows: l.rows.take(n) };
    if n == 0 {
        assert(l.rows.take(0) =~= Seq::<Seq<u32>>::empty());
        Seq::empty()
    } else {
        let before = lemma_left_join_pairs(l, r, cond, n - 1);
        let less = Table { vars: lv, rows: l.rows.take(n - 1) };
        assert(part.rows.drop_last() =~= less.rows);
        let js = lemma_matches_at(l, r, cond, n - 1, r.rows.len() as int);
        assert(r.rows.take(r.rows.len() as int) =~= r.rows);
        let left = l.rows[n - 1];
        let found = matches_of(lv, rv, left, r.rows, cond);
        let own = joined_row(lv, rv, left, r.rows, cond, true);
        let old_rows = joined_rows(lv, rv, less.rows, r.rows, cond, true);
        let rows = joined_rows(lv, rv, part.rows, r.rows, cond, true);
        assert(rows == old_rows + own);
        let places = if js.len() == 0 {
            seq![-1int]
        } else {
            js
        };
        let pairs = before + Seq::new(places.len(), |k: int| (n - 1, places[k]));
        assert(own.len() == places.len());
        lemma_join_vars(lv, rv);
        assert(js.len() == 0 ==> alone(l.vars, r, cond, left)) by {
            if js.len() == 0 {
                assert forall|j: int, row: Seq<u32>|
                    0 <= j < r.rows.len() && #[trigger] combines(lv, rv, left, r.rows[j], row) implies !cond(row) by {
                    if cond(row) {
                        assert(js.contains(j));
                    }
                }
            }
        }
        assert(js.len() > 0 ==> !alone(l.vars, r, cond, left)) by {
            if js.len() > 0 {
                assert(0 <= js[0] < r.rows.len());
                assert(combines(lv, rv, left, r.rows[js[0]], found[0]));
            }
        }
        assert forall|k: int| 0 <= k < rows.len() implies #[trigger] left_joined_from(
            part,
            r,
            cond,
            rows,
            pairs,
            k,
        ) by {
            if k < old_rows.len() {
                assert(left_joined_from(less, r, cond, old_rows, before, k));
                assert(pairs[k] == before[k]);
                assert(rows[k] == old_rows[k]);
                assert(part.rows[pairs[k].0] == less.rows[pairs[k].0]);
                if joined_from(less, r, cond, old_rows, before, k) {
                    assert(joined_from(part, r, cond, rows, pairs, k));
                } else {
                    assert(alone(part.vars, r, cond, part.rows[pairs[k].0])) by {
                        assert(alone(less.vars, r, cond, less.rows[pairs[k].0]));
                    }
                }
            } else {
                let m = k - old_rows.len();
                assert(pairs[k] == (n - 1, places[m]));
                assert(rows[k] == own[m]);
                if js.len() > 0 {
                    assert(0 <= js[m] < r.rows.len());
                    assert(joined_from(part, r, cond, rows, pairs, k));
                } else {
                    assert(rows[k] == padded(left, NULL_ID, join_vars(lv, rv).len()));
                    assert(rows[k].take(lv.len() as int) =~= left);
                    assert(alone(part.vars, r, cond, left));
                }
            }
        }
        assert forall|a: int, b: int|
            #![trigger pairs[a], pairs[b]]
            0 <= a < b < pairs.len() implies pairs[a].0 < pairs[b].0 || (pairs[a].0 == pairs[b].0
            && pairs[a].1 < pairs[b].1) by {
            if b < before.len() {
                assert(pairs[a] == before[a] && pairs[b] == before[b]);
            } else if a < before.len() {
                assert(left_joined_from(less, r, cond, old_rows, before, a));
                assert(pairs[a] == before[a]);
            } else {
                assert(js[a - before.len()] < js[b - before.len()]);
            }
        }
        assert forall|i: int, j: int, row: Seq<u32>|
            0 <= i < part.rows.len() && 0 <= j < r.rows.len() && #[trigger] combines(
                lv,
                rv,
                part.rows[i],
                r.rows[j],
                row,
            ) && cond(row) implies pairs.contains((i, j)) by {
            if i < n - 1 {
                assert(part.rows[i] == less.rows[i]);
                assert(combines(less.vars, r.vars, less.rows[i], r.rows[j], row));
                assert(before.contains((i, j)));
                let k = choose|k: int| 0 <= k < before.len() && before[k] == (i, j);
                assert(pairs[k] == (i, j));
            } else {
                assert(combines(lv, rv, l.rows[n - 1], r.rows[j], row));
                assert(js.contains(j));
                let k = choose|k: int| 0 <= k < js.len() && js[k] == j;
                assert(pairs[before.len() + k] == (i, j));
            }
        }
        assert forall|i: int|
            0 <= i < part.rows.len() && #[trigger] alone(part.vars, r, cond, part.rows[i]) implies pairs.contains(
            (i, -1int),
        ) by {
            if i < n - 1 {
                assert(less.rows[i] == part.rows[i]);
                assert(alone(less.vars, r, cond, less.rows[i]));
                assert(before.contains((i, -1int)));
                let k = choose|k: int| 0 <= k < before.len() && before[k] == (i, -1int);
                assert(pairs[k] == (i, -1int));
            } else {
                assert(part.rows[i] == left);
                assert(pairs[before.len() as int] == (i, -1int));
            }
        }
        pairs
    }
}

/// An optional join has the rows of the join and, for every left row that no right row goes
/// with, that row with what only the right side has unbound, in the place of its
/// continuations.
pub proof fn law_left_join_rows(l: Table, r: Table, cond: Condition)
    requires
        table_ok(l),
        table_ok(r),
        l.vars.no_duplicates(),
        r.vars.no_duplicates(),
        l.vars.len() <= usize::MAX,
        r.vars.len() <= usize::MAX,
    ensures
        exists|pairs: Seq<(int, int)>| #[trigger]
            is_left_join(l, r, cond, join_tables(l, r, cond, true).rows, pairs),
        join_tables(l, r, cond, true).vars == join_tables(l, r, cond, false).vars,
{
    let pairs = lemma_left_join_pairs(l, r, cond, l.rows.len() as int);
    assert(l.rows.take(l.rows.len() as int) =~= l.rows);
    assert(Table { vars: l.vars, rows: l.rows.take(l.rows.len() as int) } == l);
    assert(is_left_join(l, r, cond, join_tables(l, r, cond, true).rows, pairs));
}


/// The columns of a join, and of a union: those of the left side, then the others of the
/// right side in their order.
pub proof fn law_common_columns(lv: Seq<Seq<char>>, rv: Seq<Seq<char>>)
    requires
        rv.no_duplicates(),
        rv.len() <= usize::MAX,
    ensures
        join_vars(lv, rv) == common(lv, rv),
        union_vars(lv, rv) == common(lv, rv),
    decreases rv.len(),
{
    reveal(Seq::filter);
    let p = |n: Seq<char>| !lv.contains(n);
    if rv.len() == 0 {
        assert(rv.filter(p) =~= Seq::<Seq<char>>::empty());
        assert(join_vars(lv, rv) =~= lv);
        assert(lv + rv.filter(p) =~= lv);
    } else {
        let less = rv.drop_last();
        assert(less.no_duplicates());
        law_common_columns(lv, less);
        let before = new_cols(lv, less);
        let cols = new_cols(lv, rv);
        lemma_place_bounds(lv, rv.last());
        lemma_new_cols(lv, less);
        assert forall|i: int| 0 <= i < before.len() implies less[#[trigger] before[i] as int] == rv[before[i] as int] by {}
        if lv.contains(rv.last()) {
            assert(join_vars(lv, rv) =~= join_vars(lv, less));
            lemma_merged_names(lv, less);
        } else {
            assert(join_vars(lv, rv) =~= join_vars(lv, less).push(rv.last()));
            lemma_merged_names(lv, less);
            assert(!less.contains(rv.last())) by {
                if less.contains(rv.last()) {
                    let i = choose|i: int| 0 <= i < less.len() && less[i] == rv.last();
                    assert(rv[i] == rv[rv.len() - 1]);
                }
            }
            assert((lv + less.filter(p)).push(rv.last()) =~= lv + rv.filter(p));
        }
    }
}

proof fn lemma_new_cols(lv: Seq<Seq<char>>, rv: Seq<Seq<char>>)
    requires
        rv.len() <= usize::MAX,
    ensures
        forall|i: int| 0 <= i < new_cols(lv, rv).len() ==> #[trigger] new_cols(lv, rv)[i] < rv.len(),
    decreases rv.len(),
{
    if rv.len() > 0 {
        let before = new_cols(lv, rv.drop_last());
        lemma_new_cols(lv, rv.drop_last());
        assert forall|i: int| 0 <= i < new_cols(lv, rv).len() implies #[trigger] new_cols(lv, rv)[i] < rv.len() by {
            if i < before.len() {
                assert(new_cols(lv, rv)[i] == before[i]);
            }
        }
    }
}

/// A table that can be joined: its columns have different names, and its rows fill them.
pub open spec fn joinable(t: Table) -> bool {
    &&& table_ok(t)
    &&& t.vars.no_duplicates()
    &&& t.vars.len() <= usize::MAX
}

/// The outcome is the table of these rows, unless there are more than are allowed.
pub open spec fn bounded(r: Result<Table, Seq<char>>, vars: Seq<Seq<char>>, rows: Seq<Seq<u32>>, cap: usize) -> bool {
    &&& rows.len() <= cap <==> r is Ok
    &&& r is Ok ==> r->Ok_0 == Table { vars, rows }
}

/// A joined row needs nothing more.
pub open spec fn free() -> Condition {
    |row: Seq<u32>| true
}

/// A joined row needs the condition to be true in it, if there is one.
pub open spec fn asks(num: Replies, keys: Seq<Seq<char>>, vars: Seq<Seq<char>>, e: Option<ExprView>) -> Condition {
    |row: Seq<u32>| e is None || is_true(num, keys, vars, row, e->0)
}

/// The columns of both, those of the left side first.
pub open spec fn common(lv: Seq<Seq<char>>, rv: Seq<Seq<char>>) -> Seq<Seq<char>> {
    lv + rv.filter(|n: Seq<char>| !lv.contains(n))
}

/// The rows, as a join of two tables.
pub open spec fn joins(l: Table, r: Table, cond: Condition, optional: bool, rows: Seq<Seq<u32>>) -> bool {
    if optional {
        exists|pairs: Seq<(int, int)>| #[trigger] is_left_join(l, r, cond, rows, pairs)
    } else {
        exists|pairs: Seq<(int, int)>| #[trigger] is_join(l, r, cond, rows, pairs)
    }
}

/// Two patterns joined give the join of what they give.
pub proof fn law_join_pattern(s: Setting, keys: Seq<Seq<char>>, a: PatternView, b: PatternView, l: Table, r: Table)
    requires
        joinable(l),
        joinable(r),
        solved(s, keys, a, None).0 == Ok::<Table, Seq<char>>(l),
        solved(s, solved(s, keys, a, None).1, b, None).0 == Ok::<Table, Seq<char>>(r),
    ensures
        exists|rows: Seq<Seq<u32>>| #[trigger]
            joins(l, r, free(), false, rows) && bounded(
                solved(s, keys, PatternView::Join(Box::new(a), Box::new(b)), None).0,
                common(l.vars, r.vars),
                rows,
                s.cap,
            ),
{
    let k = solved(s, keys, a, None).1;
    let cond = free();
    assert(any_row() =~= cond);
    law_common_columns(l.vars, r.vars);
    law_join_rows(l, r, cond);
    let out = join_tables(l, r, cond, false);
    let pairs = choose|pairs: Seq<(int, int)>| #[trigger] is_join(l, r, cond, out.rows, pairs);
    assert(is_join(l, r, cond, out.rows, pairs));
    assert(joins(l, r, cond, false, out.rows));
    if let Some(e) = unread(l, k, b) {
        assert(e.vars == r.vars);
        assert(l.rows.len() == 0);
        assert(joined_rows(l.vars, r.vars, l.rows, r.rows, cond, false) =~= Seq::<Seq<u32>>::empty());
        assert(joined_rows(l.vars, r.vars, l.rows, e.rows, cond, false) =~= Seq::<Seq<u32>>::empty());
        assert(join_tables(l, e, cond, false) == out);
    }
}

/// A pattern with an optional part gives the optional join of what the two give; a condition
/// on the part is asked of the joined rows.
pub proof fn law_optional_pattern(
    s: Setting,
    keys: Seq<Seq<char>>,
    a: PatternView,
    b: PatternView,
    e: Option<ExprView>,
    l: Table,
    r: Table,
)
    requires
        joinable(l),
        joinable(r),
        condition_problem(e) is None,
        solved(s, keys, a, None).0 == Ok::<Table, Seq<char>>(l),
        solved(s, solved(s, keys, a, None).1, b, None).0 == Ok::<Table, Seq<char>>(r),
    ensures
        ({
            let k = solved(s, solved(s, keys, a, None).1, b, None).1;
            let vars = common(l.vars, r.vars);
            let cond = asks(s.num, k, vars, e);
            exists|rows: Seq<Seq<u32>>| #[trigger]
                joins(l, r, cond, true, rows) && bounded(
                    solved(s, keys, PatternView::LeftJoin(Box::new(a), Box::new(b), e), None).0,
                    vars,
                    rows,
                    s.cap,
                )
        }),
{
    let k = solved(s, solved(s, keys, a, None).1, b, None).1;
    let vars = common(l.vars, r.vars);
    let cond = asks(s.num, k, vars, e);
    law_common_columns(l.vars, r.vars);
    assert(join_condition(s.num, k, vars, e) =~= cond);
    law_left_join_rows(l, r, cond);
    let out = join_tables(l, r, cond, true);
    let pairs = choose|pairs: Seq<(int, int)>| #[trigger] is_left_join(l, r, cond, out.rows, pairs);
    assert(is_left_join(l, r, cond, out.rows, pairs));
    assert(joins(l, r, cond, true, out.rows));
}

// --- Unions ----------------------------------------------------------------------------

/// The rows of the left table, then those of the right one, each in the columns of both:
/// what a side does not have is unbound.
pub open spec fn stacks(l: Table, r: Table, vars: Seq<Seq<char>>, rows: Seq<Seq<u32>>) -> bool {
    &&& rows.len() == l.rows.len() + r.rows.len()
    &&& forall|i: int| 0 <= i < l.rows.len() ==> group_key(vars, l.vars, #[trigger] l.rows[i], rows[i])
    &&& forall|i: int|
        0 <= i < r.rows.len() ==> group_key(vars, r.vars, #[trigger] r.rows[i], rows[l.rows.len() + i])
}

/// The union of two patterns gives the rows of both, one after the other.
pub proof fn law_union_pattern(s: Setting, keys: Seq<Seq<char>>, a: PatternView, b: PatternView, l: Table, r: Table)
    requires
        joinable(l),
        joinable(r),
        solved(s, keys, a, None).0 == Ok::<Table, Seq<char>>(l),
        solved(s, solved(s, keys, a, None).1, b, None).0 == Ok::<Table, Seq<char>>(r),
    ensures
        ({
            let vars = common(l.vars, r.vars);
            exists|rows: Seq<Seq<u32>>| #[trigger]
                stacks(l, r, vars, rows) && bounded(
                    solved(s, keys, PatternView::Union(Box::new(a), Box::new(b)), None).0,
                    vars,
                    rows,
                    s.cap,
                )
        }),
{
    let vars = common(l.vars, r.vars);
    law_common_columns(l.vars, r.vars);
    let u = union_tables(l, r);
    assert forall|i: int| 0 <= i < l.rows.len() implies group_key(vars, l.vars, #[trigger] l.rows[i], u.rows[i]) by {
        lemma_group_key(vars, l.vars, l.rows[i], u.rows[i]);
    }
    assert forall|i: int| 0 <= i < r.rows.len() implies group_key(
        vars,
        r.vars,
        #[trigger] r.rows[i],
        u.rows[l.rows.len() + i],
    ) by {
        lemma_group_key(vars, r.vars, r.rows[i], u.rows[l.rows.len() + i]);
    }
    assert(stacks(l, r, vars, u.rows));
}

// --- Bound expressions -----------------------------------------------------------------

/// A value that the term made for it has too.
pub open spec fn sound(num: Replies, v: Val) -> bool {
    &&& v is Typed ==> is_term_value(num, v)
    &&& v is Num ==> numbers_round_trip(num)
    &&& encodable(val_term(num, v).0, val_term(num, v).1)
}

/// In row `i` of the result the new column holds what the expression gives, under the
/// dictionary as it stood then.
pub open spec fn bound_right(
    num: Replies,
    keys: Seq<Seq<char>>,
    after: Seq<Seq<char>>,
    t: Table,
    e: ExprView,
    i: int,
    row: Seq<u32>,
) -> bool {
    &&& row.len() == t.rows[i].len() + 1
    &&& row.drop_last() == t.rows[i]
    &&& exists|k: Seq<Seq<char>>| #[trigger]
        grown(keys, k) && grown(k, after) && binds_in(num, k, after, t.vars, t.rows[i], e, row.last())
}

/// The identifier stands for the value of the expression under the dictionary `keys`, and
/// is read under `after`.
pub open spec fn binds_in(
    num: Replies,
    keys: Seq<Seq<char>>,
    after: Seq<Seq<char>>,
    vars: Seq<Seq<char>>,
    row: Seq<u32>,
    e: ExprView,
    id: u32,
) -> bool {
    let v = ev(e, Scope { num, keys, vars, row });
    match e {
        ExprView::Variable(n) => {
            &&& forall|c: int| #[trigger] is_column(vars, n, c) ==> id == row[c]
            &&& !vars.contains(n) ==> id == NULL_ID
        },
        _ => {
            &&& v is None ==> id == NULL_ID
            &&& v is Some && sound(num, v->0) ==> id_value(num, after, id) == v
        },
    }
}


proof fn lemma_grows_on(a: Seq<Seq<char>>, b: Seq<Seq<char>>, c: Seq<Seq<char>>)
    requires
        grown(a, b),
        grown(b, c),
    ensures
        grown(a, c),
{
    assert(a =~= c.take(a.len() as int));
}

proof fn lemma_bound_id(c: Scope, n: Seq<char>)
    requires
        c.vars.no_duplicates(),
        c.row.len() == c.vars.len(),
    ensures
        forall|i: int| #[trigger] is_column(c.vars, n, i) ==> bind_id(ExprView::Variable(n), c).0 == Some(c.row[i]),
        !c.vars.contains(n) ==> bind_id(ExprView::Variable(n), c).0 == Some(NULL_ID),
{
    lemma_place_bounds(c.vars, n);
    assert forall|i: int| #[trigger] is_column(c.vars, n, i) implies bind_id(ExprView::Variable(n), c).0 == Some(
        c.row[i],
    ) by {
        lemma_place_at(c.vars, i);
    }
}

/// One bound cell.
proof fn lemma_bound_cell(c: Scope, e: ExprView)
    requires
        c.vars.no_duplicates(),
        c.row.len() == c.vars.len(),
        c.keys.len() <= u32::MAX,
        bind_id(e, c).0 is Some,
    ensures
        ({
            let (id, after) = bind_id(e, c);
            &&& grown(c.keys, after)
            &&& after.len() <= u32::MAX
            &&& binds_in(c.num, c.keys, after, c.vars, c.row, e, id->0)
        }),
{
    match e {
        ExprView::Variable(n) => {
            lemma_bound_id(c, n);
        },
        _ => {
            if let Some(v) = ev(e, c) {
                if sound(c.num, v) {
                    law_stored_term_has_the_value(c.num, c.keys, v);
                }
            }
        },
    }
}

proof fn lemma_bound_rows(num: Replies, keys: Seq<Seq<char>>, t: Table, e: ExprView, n: int)
    requires
        joinable(t),
        keys.len() <= u32::MAX,
        0 <= n <= t.rows.len(),
        bound_rows(num, keys, t, e, n).0 is Some,
    ensures
        ({
            let (rows, after) = bound_rows(num, keys, t, e, n);
            &&& grown(keys, after)
            &&& after.len() <= u32::MAX
            &&& (rows->0).len() == n
            &&& forall|i: int| 0 <= i < n ==> bound_right(num, keys, after, t, e, i, #[trigger] (rows->0)[i])
        }),
    decreases n,
{
    if n > 0 {
        let before = bound_rows(num, keys, t, e, n - 1);
        lemma_bound_rows(num, keys, t, e, n - 1);
        let row = t.rows[n - 1];
        let c = Scope { num, keys: before.1, vars: t.vars, row };
        let (id, after) = bind_id(e, c);
        lemma_bound_cell(c, e);
        lemma_grows_on(keys, before.1, after);
        let rows = bound_rows(num, keys, t, e, n).0->0;
        assert forall|i: int| 0 <= i < n implies bound_right(num, keys, after, t, e, i, #[trigger] rows[i]) by {
            if i < n - 1 {
                let r = (before.0->0)[i];
                assert(rows[i] == r);
                let k = choose|k: Seq<Seq<char>>| #[trigger]
                    grown(keys, k) && grown(k, before.1) && binds_in(
                        num,
                        k,
                        before.1,
                        t.vars,
                        t.rows[i],
                        e,
                        r.last(),
                    );
                lemma_grows_on(k, before.1, after);
                assert(grown(keys, k) && grown(k, after) && binds_in(num, k, after, t.vars, t.rows[i], e, r.last()));
            } else {
                assert(rows[i] == row.push(id->0));
                assert(rows[i].drop_last() =~= row);
                assert(grown(keys, before.1) && grown(before.1, after) && binds_in(
                    num,
                    before.1,
                    after,
                    t.vars,
                    t.rows[i],
                    e,
                    rows[i].last(),
                ));
            }
        }
    }
}

/// Binding an expression to a variable gives every row, in its order, one more cell: the
/// value of the expression in the row.
pub proof fn law_bind_pattern(
    s: Setting,
    keys: Seq<Seq<char>>,
    q: PatternView,
    var: Seq<char>,
    e: ExprView,
    t: Table,
)
    requires
        s.writable,
        joinable(t),
        solved(s, keys, q, None).0 == Ok::<Table, Seq<char>>(t),
        solved(s, keys, q, None).1.len() <= u32::MAX,
        solved(s, keys, PatternView::Extend(Box::new(q), var, e), None).0 is Ok,
    ensures
        ({
            let k = solved(s, keys, q, None).1;
            let (r, after) = solved(s, keys, PatternView::Extend(Box::new(q), var, e), None);
            let out = r->Ok_0;
            &&& grown(k, after)
            &&& out.vars == t.vars.push(var)
            &&& out.rows.len() == t.rows.len()
            &&& forall|i: int|
                0 <= i < t.rows.len() ==> bound_right(s.num, k, after, t, e, i, #[trigger] out.rows[i])
        }),
{
    let k = solved(s, keys, q, None).1;
    lemma_bound_rows(s.num, k, t, e, t.rows.len() as int);
}

// --- Groups ----------------------------------------------------------------------------

/// Grouping a pattern gives a row for each group of its rows.
pub proof fn law_group_pattern(
    s: Setting,
    keys: Seq<Seq<char>>,
    by: Seq<Seq<char>>,
    aggs: Seq<AggregateView>,
    q: PatternView,
    t: Table,
)
    requires
        s.writable,
        t.vars.no_duplicates(),
        solved(s, keys, q, None).0 == Ok::<Table, Seq<char>>(t),
        solved(s, keys, q, None).1.len() <= u32::MAX,
        solved(s, keys, PatternView::Group(by, aggs, Box::new(q)), None).0 is Ok,
    ensures
        ({
            let k = solved(s, keys, q, None).1;
            let (r, after) = solved(s, keys, PatternView::Group(by, aggs, Box::new(q)), None);
            let out = r->Ok_0;
            &&& out.vars == by + aggs.map_values(|a: AggregateView| a.variable)
            &&& out.rows.len() == group_keys(by, t).len()
            &&& forall|g: int|
                0 <= g < out.rows.len() ==> group_row_right(s.num, k, after, by, aggs, t, g, #[trigger] out.rows[g])
        }),
{
    let k = solved(s, keys, q, None).1;
    law_grouping(s.num, k, by, aggs, t);
    let out = solved(s, keys, PatternView::Group(by, aggs, Box::new(q)), None).0->Ok_0;
    let names = by + aggs.map_values(|a: AggregateView| a.variable);
    assert forall|i: int| 0 <= i < names.len() implies out.vars[i] == names[i] by {
        if i >= by.len() {
            assert(out.vars[by.len() + (i - by.len())] == aggs[i - by.len()].variable);
        }
    }
    assert(out.vars =~= names);
}


// --- Solution modifiers ------------------------------------------------------------------

/// A query level: a pattern, ordered if there are criteria, in the asked columns if there
/// are any, without repetitions if that is asked, and of that a slice.
pub struct Level {
    pub orders: Seq<OrderByView>,
    pub names: Option<Seq<Seq<char>>>,
    pub distinct: bool,
    pub slice: Option<(usize, Option<usize>)>,
}

/// The pattern of a query level.
pub open spec fn leveled(v: Level, q: PatternView) -> PatternView {
    let a = if v.orders.len() > 0 {
        PatternView::Order(v.orders, Box::new(q))
    } else {
        q
    };
    let b = match v.names {
        Some(names) => PatternView::Project(names, Box::new(a)),
        None => a,
    };
    let c = if v.distinct {
        PatternView::Distinct(Box::new(b))
    } else {
        b
    };
    match v.slice {
        Some((start, length)) => PatternView::Slice(start, length, Box::new(c)),
        None => c,
    }
}

/// The rows in order, if there are criteria.
pub open spec fn arranged(c: Criteria, rows: Seq<Seq<u32>>, out: Seq<Seq<u32>>) -> bool {
    if c.orders.len() > 0 {
        exists|places: Seq<int>| #[trigger] is_sorted(c, rows, out, places)
    } else {
        out == rows
    }
}

/// Every row in other columns.
pub open spec fn in_columns(names: Seq<Seq<char>>, vars: Seq<Seq<char>>, rows: Seq<Seq<u32>>, out: Seq<Seq<u32>>) -> bool {
    &&& out.len() == rows.len()
    &&& forall|i: int| 0 <= i < rows.len() ==> group_key(names, vars, rows[i], #[trigger] out[i])
}

/// The same row.
pub open spec fn same_row() -> spec_fn(Seq<u32>, Seq<u32>) -> bool {
    |a: Seq<u32>, b: Seq<u32>| a == b
}

/// Row `a` is smaller than row `b` where they first differ.
pub open spec fn smaller(a: Seq<u32>, b: Seq<u32>) -> bool {
    exists|k: int|
        0 <= k < a.len() && k < b.len() && #[trigger] a[k] < b[k] && a.take(k) == b.take(k)
}

/// The rows, each once if that is asked: in the order they have, or from the smallest to the
/// largest if they have none.
pub open spec fn once(distinct: bool, ordered: bool, rows: Seq<Seq<u32>>, out: Seq<Seq<u32>>) -> bool {
    if !distinct {
        out == rows
    } else if ordered {
        taken(rows, same_row(), true, out)
    } else {
        &&& forall|r: Seq<u32>| #[trigger] out.contains(r) <==> rows.contains(r)
        &&& forall|i: int, j: int| #![trigger out[i], out[j]] 0 <= i < j < out.len() ==> smaller(out[i], out[j])
    }
}

/// The rows from a place on, at most so many.
pub open spec fn is_slice(rows: Seq<Seq<u32>>, slice: Option<(usize, Option<usize>)>, out: Seq<Seq<u32>>) -> bool {
    match slice {
        None => out == rows,
        Some((start, length)) => {
            &&& forall|i: int| 0 <= i < out.len() ==> start + i < rows.len() && #[trigger] out[i] == rows[start + i]
            &&& start + out.len() >= rows.len() || length == Some(out.len() as usize)
            &&& length is Some ==> out.len() <= length->0
        },
    }
}

/// What a query level makes of a table: the order, then the columns, then each row once,
/// then the slice.
pub open spec fn makes(
    num: Replies,
    keys: Seq<Seq<char>>,
    v: Level,
    t: Table,
    names: Seq<Seq<char>>,
    out: Seq<Seq<u32>>,
    steps: (Seq<Seq<u32>>, Seq<Seq<u32>>, Seq<Seq<u32>>),
) -> bool {
    let c = Criteria { num, keys, vars: t.vars, orders: v.orders };
    &&& arranged(c, t.rows, steps.0)
    &&& in_columns(names, t.vars, steps.0, steps.1)
    &&& once(v.distinct, v.orders.len() > 0, steps.1, steps.2)
    &&& is_slice(steps.2, v.slice, out)
}

/// The columns of a query level: those that are asked for, else all but those that stand for
/// blank nodes.
pub open spec fn named(v: Level, vars: Seq<Seq<char>>) -> Seq<Seq<char>> {
    match v.names {
        Some(names) => names,
        None => vars.filter(|n: Seq<char>| !("__bn_"@).is_prefix_of(n)),
    }
}

proof fn lemma_shown(vars: Seq<Seq<char>>)
    ensures
        shown(vars) == vars.filter(|n: Seq<char>| !("__bn_"@).is_prefix_of(n)),
    decreases vars.len(),
{
    reveal(Seq::filter);
    let p = |n: Seq<char>| !("__bn_"@).is_prefix_of(n);
    if vars.len() > 0 {
        lemma_shown(vars.drop_last());
        let n = vars.last();
        assert(has_prefix(n, "__bn_"@) <==> ("__bn_"@).is_prefix_of(n)) by {
            if ("__bn_"@).is_prefix_of(n) {
                assert(n.take("__bn_"@.len() as int) =~= "__bn_"@);
            }
        }
    } else {
        assert(vars.filter(p) =~= Seq::<Seq<char>>::empty());
    }
}

/// Name `k` is the first, from number `i` on, that is not a column.
pub open spec fn is_first_missing(vars: Seq<Seq<char>>, names: Seq<Seq<char>>, i: int, k: int) -> bool {
    &&& k < names.len()
    &&& !vars.contains(names[k])
    &&& forall|j: int| i <= j < k ==> vars.contains(#[trigger] names[j])
}

proof fn lemma_first_missing(vars: Seq<Seq<char>>, names: Seq<Seq<char>>, i: int)
    requires
        0 <= i,
    ensures
        first_missing(vars, names, i) is None <==> forall|k: int|
            i <= k < names.len() ==> vars.contains(#[trigger] names[k]),
        first_missing(vars, names, i) is Some ==> exists|k: int|
            i <= k && #[trigger] is_first_missing(vars, names, i, k) && first_missing(vars, names, i) == Some(
                names[k],
            ),
    decreases names.len() - i,
{
    if i < names.len() {
        lemma_first_missing(vars, names, i + 1);
        lemma_place_bounds(vars, names[i]);
        if first_missing(vars, names, i) is Some {
            let k = if !vars.contains(names[i]) {
                i
            } else {
                choose|k: int|
                    i + 1 <= k && #[trigger] is_first_missing(vars, names, i + 1, k) && first_missing(
                        vars,
                        names,
                        i + 1,
                    ) == Some(names[k])
            };
            assert(is_first_missing(vars, names, i, k));
        }
    }
}

proof fn lemma_first_rows_at(s: Seq<Seq<u32>>) -> (at: Seq<int>)
    ensures
        firsts(s, same_row(), first_rows(s), at),
    decreases s.len(),
{
    if s.len() == 0 {
        Seq::empty()
    } else {
        let less = s.drop_last();
        let x = s.last();
        let at = lemma_first_rows_at(less);
        assert(s =~= less.push(x));
        if less.contains(x) {
            let j = choose|j: int| 0 <= j < less.len() && less[j] == x;
            lemma_same_firsts(less, same_row(), first_rows(less), at, x, j);
            at
        } else {
            assert forall|j: int| 0 <= j < less.len() implies !same_row()(#[trigger] less[j], x) by {
                assert(less.contains(less[j]));
            }
            lemma_more_firsts(less, same_row(), first_rows(less), at, x);
            at.push(less.len() as int)
        }
    }
}

proof fn lemma_smaller(a: Seq<u32>, b: Seq<u32>, i: int)
    requires
        0 <= i <= a.len(),
        i <= b.len(),
        a.len() == b.len(),
        a.take(i) == b.take(i),
        row_lt_from(a, b, i),
    ensures
        smaller(a, b),
    decreases a.len() - i,
{
    if i < a.len() && i < b.len() {
        if a[i] < b[i] {
        } else {
            assert(a.take(i + 1) =~= a.take(i).push(a[i]));
            assert(b.take(i + 1) =~= b.take(i).push(b[i]));
            lemma_smaller(a, b, i + 1);
        }
    }
}

/// A query gives what its level makes of the solutions of its pattern: they are ordered,
/// put in the asked columns, freed of repetitions and sliced, in this turn. It fails where
/// a column is asked for that the pattern does not have, and names the first such column.
pub proof fn law_query_level(s: Setting, keys: Seq<Seq<char>>, v: Level, q: PatternView, t: Table)
    requires
        !is_modifier(q),
        joinable(t),
        t.rows.len() <= usize::MAX,
        solved(s, keys, q, None).0 == Ok::<Table, Seq<char>>(t),
    ensures
        ({
            let k = solved(s, keys, q, None).1;
            let names = named(v, t.vars);
            let (r, after) = answered(s, keys, leveled(v, q));
            &&& after == k
            &&& r is Ok <==> forall|i: int| 0 <= i < names.len() ==> t.vars.contains(#[trigger] names[i])
            &&& r matches Err(e) ==> exists|i: int|
                0 <= i && #[trigger] is_first_missing(t.vars, names, 0, i) && e == "SELECT variable ?"@ + names[i]
                    + " does not appear in pattern"@
            &&& r is Ok ==> (r->Ok_0).vars == names && exists|steps: (Seq<Seq<u32>>, Seq<Seq<u32>>, Seq<Seq<u32>>)|
                #[trigger] makes(s.num, k, v, t, names, (r->Ok_0).rows, steps)
        }),
{
    let p = leveled(v, q);
    let m = peeled(p);
    let k = solved(s, keys, q, None).1;
    assert(m.pattern == q);
    assert(m.order_by =~= v.orders);
    assert(m.distinct == v.distinct);
    law_limit_preserves_answers(s, keys, p);
    let names = named(v, t.vars);
    lemma_shown(t.vars);
    assert(asked(m, t.vars) == names);
    lemma_first_missing(t.vars, names, 0);
    let (r, after) = answered(s, keys, p);
    if r is Ok {
        let c = Criteria { num: s.num, keys: k, vars: t.vars, orders: v.orders };
        let a = in_asked_order(s.num, k, m, t);
        law_order_by(c, t.rows);
        assert(arranged(c, t.rows, a));
        let b = projected(t.vars, names, a);
        lemma_projected(t, names, a, c);
        let d = as_distinct(m, b);
        lemma_once(names.len(), b, v.distinct, v.orders.len() > 0, d);
        let out = (r->Ok_0).rows;
        assert(out == sliced(d, m.offset as nat, m.limit));
        match v.slice {
            None => {
                assert(out =~= d);
            },
            Some((start, length)) => {
                assert(m.offset == start && m.limit == length);
            },
        }
        assert(is_slice(d, v.slice, out));
        assert(makes(s.num, k, v, t, names, out, (a, b, d)));
    }
}

proof fn lemma_projected(t: Table, names: Seq<Seq<char>>, a: Seq<Seq<u32>>, c: Criteria)
    requires
        joinable(t),
        arranged(c, t.rows, a),
        forall|i: int| 0 <= i < names.len() ==> t.vars.contains(#[trigger] names[i]),
    ensures
        in_columns(names, t.vars, a, projected(t.vars, names, a)),
        forall|i: int| 0 <= i < a.len() ==> #[trigger] projected(t.vars, names, a)[i].len() == names.len(),
{
    let b = projected(t.vars, names, a);
    assert forall|i: int| 0 <= i < a.len() implies group_key(names, t.vars, a[i], #[trigger] b[i]) by {
        lemma_group_key(names, t.vars, a[i], b[i]);
        assert forall|j: int| 0 <= j < names.len() implies b[i][j] == aligned(names, t.vars, a[i])[j] by {
            assert(t.vars.contains(names[j]));
            lemma_place_bounds(t.vars, names[j]);
        }
        assert(b[i] =~= aligned(names, t.vars, a[i]));
    }
}

proof fn lemma_once(width: nat, b: Seq<Seq<u32>>, distinct: bool, ordered: bool, d: Seq<Seq<u32>>)
    requires
        forall|i: int| 0 <= i < b.len() ==> (#[trigger] b[i]).len() == width,
        !distinct ==> d == b,
        distinct && ordered ==> d == first_rows(b),
        distinct && !ordered ==> d == rows_in_order(b),
    ensures
        once(distinct, ordered, b, d),
{
    if distinct && ordered {
        let at = lemma_first_rows_at(b);
        assert(firsts(b, same_row(), d, at));
    } else if distinct {
        law_rows_in_order(b, width);
        assert forall|i: int, j: int| #![trigger d[i], d[j]] 0 <= i < j < d.len() implies smaller(d[i], d[j]) by {
            assert(d.contains(d[i]) && d.contains(d[j]));
            assert(b.contains(d[i]) && b.contains(d[j]));
            assert(row_lt(d[i], d[j]));
            assert(d[i].take(0) =~= d[j].take(0));
            lemma_smaller(d[i], d[j], 0);
        }
    }
}


/// A query inside a pattern is evaluated like a query on its own.
pub proof fn law_nested_query(s: Setting, keys: Seq<Seq<char>>, p: PatternView, limit: Option<usize>)
    requires
        is_modifier(p),
    ensures
        solved(s, keys, p, limit) == answered(s, keys, p),
{
    lemma_peeled_smaller(p);
}

// --- Failures --------------------------------------------------------------------------

/// Where a part of a pattern fails, the pattern fails with the same error.
pub proof fn law_failed_part(
    s: Setting,
    keys: Seq<Seq<char>>,
    q: PatternView,
    other: PatternView,
    e: ExprView,
    cond: Option<ExprView>,
    error: Seq<char>,
)
    requires
        solved(s, keys, q, None).0 == Err::<Table, Seq<char>>(error),
    ensures
        ({
            let failed = Err::<Table, Seq<char>>(error);
            &&& solved(s, keys, PatternView::Filter(e, Box::new(q)), None).0 == failed
            &&& solved(s, keys, PatternView::Join(Box::new(q), Box::new(other)), None).0 == failed
            &&& solved(s, keys, PatternView::Union(Box::new(q), Box::new(other)), None).0 == failed
            &&& condition_problem(cond) is None ==> solved(
                s,
                keys,
                PatternView::LeftJoin(Box::new(q), Box::new(other), cond),
                None,
            ).0 == failed
        }),
{
}

/// The same for the second part, after the first one was evaluated.
pub proof fn law_failed_second_part(
    s: Setting,
    keys: Seq<Seq<char>>,
    a: PatternView,
    b: PatternView,
    cond: Option<ExprView>,
    l: Table,
    error: Seq<char>,
)
    requires
        solved(s, keys, a, None).0 == Ok::<Table, Seq<char>>(l),
        solved(s, solved(s, keys, a, None).1, b, None).0 == Err::<Table, Seq<char>>(error),
    ensures
        ({
            let failed = Err::<Table, Seq<char>>(error);
            &&& l.rows.len() > 0 || b !is Bgp ==> solved(s, keys, PatternView::Join(Box::new(a), Box::new(b)), None).0
                == failed
            &&& solved(s, keys, PatternView::Union(Box::new(a), Box::new(b)), None).0 == failed
            &&& condition_problem(cond) is None ==> solved(
                s,
                keys,
                PatternView::LeftJoin(Box::new(a), Box::new(b), cond),
                None,
            ).0 == failed
        }),
{
}

/// Patterns of other kinds fail, and so do computed columns and groups where the store may
/// only be read.
pub proof fn law_refused_patterns(
    s: Setting,
    keys: Seq<Seq<char>>,
    a: PatternView,
    b: PatternView,
    var: Seq<char>,
    e: ExprView,
    by: Seq<Seq<char>>,
    aggs: Seq<AggregateView>,
)
    ensures
        solved(s, keys, PatternView::Minus(Box::new(a), Box::new(b)), None).0 is Err,
        solved(s, keys, PatternView::Values, None).0 is Err,
        solved(s, keys, PatternView::Graph(Box::new(a)), None).0 is Err,
        solved(s, keys, PatternView::Service(Box::new(a)), None).0 is Err,
        !s.writable ==> solved(s, keys, PatternView::Extend(Box::new(a), var, e), None).0 is Err,
        !s.writable ==> solved(s, keys, PatternView::Group(by, aggs, Box::new(a)), None).0 is Err,
{
}

/// One expression is a direct part of another.
pub open spec fn is_operand(x: ExprView, e: ExprView) -> bool {
    match e {
        ExprView::Binary(_, a, b) => x == *a || x == *b,
        ExprView::Unary(_, a) => x == *a,
        ExprView::In(a, list) => x == *a || list.contains(x),
        ExprView::If(c, a, b) => x == *c || x == *a || x == *b,
        ExprView::Call(_, args) => args.contains(x),
        _ => false,
    }
}

/// An expression cannot be evaluated if and only if it is an unsupported call, or one of its
/// operands cannot.
pub proof fn law_unsupported_expressions(e: ExprView)
    ensures
        unsupported_in(e) is Some <==> e is Unsupported || exists|x: ExprView| #[trigger]
            is_operand(x, e) && unsupported_in(x) is Some,
{
    match e {
        ExprView::Binary(_, a, b) => {
            assert(is_operand(*a, e) && is_operand(*b, e));
        },
        ExprView::Unary(_, a) => {
            assert(is_operand(*a, e));
        },
        ExprView::If(c, a, b) => {
            assert(is_operand(*a, e) && is_operand(*b, e) && is_operand(*c, e));
        },
        ExprView::In(a, list) => {
            assert(is_operand(*a, e));
            lemma_unsupported_among(list, 0);
            assert forall|i: int| 0 <= i < list.len() implies is_operand(#[trigger] list[i], e) by {
                assert(list.contains(list[i]));
            }
        },
        ExprView::Call(_, args) => {
            lemma_unsupported_among(args, 0);
            assert forall|i: int| 0 <= i < args.len() implies is_operand(#[trigger] args[i], e) by {
                assert(args.contains(args[i]));
            }
        },
        _ => {},
    }
}

proof fn lemma_unsupported_among(list: Seq<ExprView>, i: int)
    requires
        0 <= i,
    ensures
        unsupported_among(list, i) is Some <==> exists|k: int|
            i <= k < list.len() && unsupported_in(#[trigger] list[k]) is Some,
    decreases list.len() - i,
{
    if i < list.len() {
        lemma_unsupported_among(list, i + 1);
        if unsupported_in(list[i]) is None && exists|k: int|
            i <= k < list.len() && unsupported_in(#[trigger] list[k]) is Some {
            let k = choose|k: int| i <= k < list.len() && unsupported_in(#[trigger] list[k]) is Some;
            assert(i + 1 <= k);
        }
    }
}


/// A basic graph pattern with more solutions than are allowed fails; one that succeeds gives
/// all its solutions.
pub proof fn law_solution_bound(s: Setting, keys: Seq<Seq<char>>, ts: Seq<TripleView>, ps: Seq<PatTriple>)
    requires
        id_triples(keys, ts) == Some(ps),
        s.cap < usize::MAX,
    ensures
        hybrid_rows(&s.index, ps).len() > s.cap ==> solved(s, keys, PatternView::Bgp(ts), None).0 is Err,
        solved(s, keys, PatternView::Bgp(ts), None).0 matches Ok(t) ==> t.rows.len() <= s.cap && t.rows
            == hybrid_rows(&s.index, ps),
{
}

// --- Computed terms ----------------------------------------------------------------------

/// One pattern is a direct part of another.
pub open spec fn is_part(x: PatternView, p: PatternView) -> bool {
    match p {
        PatternView::Join(a, b) => x == *a || x == *b,
        PatternView::LeftJoin(a, b, _) => x == *a || x == *b,
        PatternView::Union(a, b) => x == *a || x == *b,
        PatternView::Minus(a, b) => x == *a || x == *b,
        PatternView::Filter(_, q) => x == *q,
        PatternView::Graph(q) => x == *q,
        PatternView::Service(q) => x == *q,
        PatternView::Project(_, q) => x == *q,
        PatternView::Distinct(q) => x == *q,
        PatternView::Reduced(q) => x == *q,
        PatternView::Slice(_, _, q) => x == *q,
        PatternView::Order(_, q) => x == *q,
        _ => false,
    }
}

/// A pattern may add terms to the dictionary exactly if it, or a part of it, binds or groups.
pub proof fn law_adding_patterns(p: PatternView)
    ensures
        adds_terms(p) <==> p is Extend || p is Group || exists|x: PatternView| #[trigger]
            is_part(x, p) && adds_terms(x),
{
    match p {
        PatternView::Join(a, b) => {
            assert(is_part(*a, p) && is_part(*b, p));
        },
        PatternView::LeftJoin(a, b, _) => {
            assert(is_part(*a, p) && is_part(*b, p));
        },
        PatternView::Union(a, b) => {
            assert(is_part(*a, p) && is_part(*b, p));
        },
        PatternView::Minus(a, b) => {
            assert(is_part(*a, p) && is_part(*b, p));
        },
        PatternView::Filter(_, q) => assert(is_part(*q, p)),
        PatternView::Graph(q) => assert(is_part(*q, p)),
        PatternView::Service(q) => assert(is_part(*q, p)),
        PatternView::Project(_, q) => assert(is_part(*q, p)),
        PatternView::Distinct(q) => assert(is_part(*q, p)),
        PatternView::Reduced(q) => assert(is_part(*q, p)),
        PatternView::Slice(_, _, q) => assert(is_part(*q, p)),
        PatternView::Order(_, q) => assert(is_part(*q, p)),
        _ => {},
    }
}

/// How a query is run: with inference if that is asked for, else with a change to the store
/// exactly if it may add terms.
pub proof fn law_access(infer: Option<Seq<char>>, adds: bool)
    ensures
        access_for(infer, adds) == Access::Infer <==> infer == Some("rdfs"@),
        access_for(infer, adds) == Access::Write <==> infer != Some("rdfs"@) && adds,
        access_for(infer, adds) == Access::Read <==> infer != Some("rdfs"@) && !adds,
{
}

} // verus!
