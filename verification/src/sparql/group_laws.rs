//! What groups and aggregates are.

use crate::bytes::Side;
use crate::hypertrie::dictionary::{term_key, typed, TermKind};
use crate::hypertrie::executor::{lemma_place_bounds, place};
use crate::hypertrie::rows::{first_rows, law_first_rows};
use crate::hypertrie::NULL_ID;
use crate::sparql::algebra::{AggregateFnView, AggregateView, ExprView};
use crate::sparql::bind::interned;
use crate::sparql::expr::{ev, Scope};
use crate::sparql::grouping::{
    aggregate_problem, bound_ids, chosen_ids, computed, concatenated, extreme_id, first_ids,
    first_numbers, group_cells, group_keys, group_members, group_outcome, group_rows, has_number,
    law_first_ids, plain_bits, row_numbers, rows_under, sum_of, Computed,
};
use crate::sparql::numbers::{NumberCallView, NumberReplyView, Replies, ONE_BITS, SIGN_BIT};
use crate::sparql::solve_laws::grown;
use crate::sparql::sort_laws::{comes_before, law_value_order};
use crate::sparql::sorting::{key_of, key_side};
use crate::sparql::table_laws::lemma_place_at;
use crate::sparql::tables::{aligned, aligned_rows, Table};
use crate::sparql::value_laws::is_column;
use crate::sparql::values::{id_value, Val};
use crate::text::decimal;
use vstd::prelude::*;

verus! {

// --- First occurrences -------------------------------------------------------------------

/// `out` has the members of `s` where they first occur, in their order: place `k` of it
/// comes from place `at[k]` of `s`, where nothing that is the same stands before.
pub open spec fn firsts<A>(s: Seq<A>, same: spec_fn(A, A) -> bool, out: Seq<A>, at: Seq<int>) -> bool {
    &&& at.len() == out.len()
    &&& forall|k: int| 0 <= k < at.len() ==> 0 <= #[trigger] at[k] < s.len() && out[k] == s[at[k]]
    &&& forall|k: int, m: int| 0 <= k < m < at.len() ==> #[trigger] at[k] < #[trigger] at[m]
    &&& forall|k: int, j: int|
        #![trigger at[k], s[j]]
        0 <= k < at.len() && 0 <= j < at[k] ==> !same(s[j], s[at[k]])
    &&& forall|i: int| 0 <= i < s.len() ==> #[trigger] is_first_of(s, same, at, i)
}

/// What stands at place `i` is the same as one of the first occurrences.
pub open spec fn is_first_of<A>(s: Seq<A>, same: spec_fn(A, A) -> bool, at: Seq<int>, i: int) -> bool {
    exists|k: int| 0 <= k < at.len() && #[trigger] at[k] <= i && (at[k] == i || same(s[at[k]], s[i]))
}

/// Repetitions are dropped, or not.
pub open spec fn taken<A>(s: Seq<A>, same: spec_fn(A, A) -> bool, distinct: bool, out: Seq<A>) -> bool {
    if distinct {
        exists|at: Seq<int>| #[trigger] firsts(s, same, out, at)
    } else {
        out == s
    }
}

/// The same identifier.
pub open spec fn same_id() -> spec_fn(u32, u32) -> bool {
    |a: u32, b: u32| a == b
}

/// The same number: equal bits, or zero both.
pub open spec fn same_number() -> spec_fn(u64, u64) -> bool {
    |a: u64, b: u64| a == b || ((a == 0 || a == SIGN_BIT) && (b == 0 || b == SIGN_BIT))
}

pub proof fn lemma_more_firsts<A>(s: Seq<A>, same: spec_fn(A, A) -> bool, out: Seq<A>, at: Seq<int>, x: A)
    requires
        firsts(s, same, out, at),
        forall|j: int| 0 <= j < s.len() ==> !same(#[trigger] s[j], x),
    ensures
        firsts(s.push(x), same, out.push(x), at.push(s.len() as int)),
{
    let t = s.push(x);
    let bt = at.push(s.len() as int);
    assert forall|i: int| 0 <= i < t.len() implies #[trigger] is_first_of(t, same, bt, i) by {
        if i < s.len() {
            assert(is_first_of(s, same, at, i));
            let k = choose|k: int|
                0 <= k < at.len() && #[trigger] at[k] <= i && (at[k] == i || same(s[at[k]], s[i]));
            assert(bt[k] == at[k] && t[at[k]] == s[at[k]] && t[i] == s[i]);
        } else {
            assert(bt[at.len() as int] == i);
        }
    }
    assert forall|k: int, j: int|
        #![trigger bt[k], t[j]]
        0 <= k < bt.len() && 0 <= j < bt[k] implies !same(t[j], t[bt[k]]) by {
        if k < at.len() {
            assert(at[k] == bt[k]);
            assert(t[j] == s[j] && t[bt[k]] == s[at[k]]);
        } else {
            assert(t[j] == s[j]);
        }
    }
}

pub proof fn lemma_same_firsts<A>(s: Seq<A>, same: spec_fn(A, A) -> bool, out: Seq<A>, at: Seq<int>, x: A, j: int)
    requires
        firsts(s, same, out, at),
        0 <= j < s.len(),
        same(s[j], x),
        forall|a: A, b: A, c: A| #[trigger] same(a, b) && #[trigger] same(b, c) ==> same(a, c),
    ensures
        firsts(s.push(x), same, out, at),
{
    let t = s.push(x);
    assert forall|i: int| 0 <= i < t.len() implies #[trigger] is_first_of(t, same, at, i) by {
        let m = if i < s.len() {
            i
        } else {
            j
        };
        assert(is_first_of(s, same, at, m));
        let k = choose|k: int|
            0 <= k < at.len() && #[trigger] at[k] <= m && (at[k] == m || same(s[at[k]], s[m]));
        assert(t[at[k]] == s[at[k]]);
        if i < s.len() {
            assert(t[i] == s[i]);
        } else {
            assert(same(s[m], x));
            assert(same(s[at[k]], x));
        }
    }
    assert forall|k: int, j: int|
        #![trigger at[k], t[j]]
        0 <= k < at.len() && 0 <= j < at[k] implies !same(t[j], t[at[k]]) by {
        assert(t[j] == s[j] && t[at[k]] == s[at[k]]);
    }
}

proof fn lemma_no_firsts<A>(s: Seq<A>, same: spec_fn(A, A) -> bool)
    requires
        s.len() == 0,
    ensures
        firsts(s, same, Seq::<A>::empty(), Seq::<int>::empty()),
{
}

proof fn lemma_first_ids(s: Seq<u32>) -> (at: Seq<int>)
    ensures
        firsts(s, same_id(), first_ids(s), at),
    decreases s.len(),
{
    if s.len() == 0 {
        lemma_no_firsts(s, same_id());
        Seq::empty()
    } else {
        let rest = s.drop_last();
        let x = s.last();
        let at = lemma_first_ids(rest);
        assert(s =~= rest.push(x));
        if rest.contains(x) {
            let j = choose|j: int| 0 <= j < rest.len() && rest[j] == x;
            lemma_same_firsts(rest, same_id(), first_ids(rest), at, x, j);
            at
        } else {
            assert forall|j: int| 0 <= j < rest.len() implies !(same_id())(#[trigger] rest[j], x) by {
                assert(rest.contains(rest[j]));
            }
            lemma_more_firsts(rest, same_id(), first_ids(rest), at, x);
            at.push(rest.len() as int)
        }
    }
}

proof fn lemma_first_numbers(s: Seq<u64>) -> (at: Seq<int>)
    ensures
        firsts(s, same_number(), first_numbers(s), at),
    decreases s.len(),
{
    let same = same_number();
    if s.len() == 0 {
        lemma_no_firsts(s, same);
        Seq::empty()
    } else {
        let rest = s.drop_last();
        let x = s.last();
        let at = lemma_first_numbers(rest);
        assert(s =~= rest.push(x));
        if has_number(rest, x) {
            let j = choose|j: int| 0 <= j < rest.len() && plain_bits(#[trigger] rest[j]) == plain_bits(x);
            assert(same(rest[j], x));
            lemma_same_firsts(rest, same, first_numbers(rest), at, x, j);
            at
        } else {
            assert forall|j: int| 0 <= j < rest.len() implies !same(#[trigger] rest[j], x) by {
                assert(plain_bits(rest[j]) != plain_bits(x));
            }
            lemma_more_firsts(rest, same, first_numbers(rest), at, x);
            at.push(rest.len() as int)
        }
    }
}

// --- What aggregates take --------------------------------------------------------------------

/// The terms that column `c` is bound to, one for each row where it is bound.
pub open spec fn bound_cells(rows: Seq<Seq<u32>>, c: int) -> Seq<u32> {
    rows.filter(|r: Seq<u32>| r[c] != NULL_ID).map_values(|r: Seq<u32>| r[c])
}

/// The number that a value counts as.
pub open spec fn as_number(v: Option<Val>) -> Option<u64> {
    match v {
        Some(Val::Num(n)) => Some(n),
        Some(Val::Bool(true)) => Some(ONE_BITS),
        Some(Val::Bool(false)) => Some(0),
        _ => None,
    }
}

/// The numbers that an expression gives, one for each row where it gives one.
pub open spec fn numbers_of(
    num: Replies,
    keys: Seq<Seq<char>>,
    vars: Seq<Seq<char>>,
    rows: Seq<Seq<u32>>,
    e: ExprView,
) -> Seq<u64> {
    rows.filter(
        |r: Seq<u32>| as_number(ev(e, Scope { num, keys, vars, row: r })) is Some,
    ).map_values(|r: Seq<u32>| as_number(ev(e, Scope { num, keys, vars, row: r }))->0)
}

proof fn lemma_bound_cells(vars: Seq<Seq<char>>, rows: Seq<Seq<u32>>, name: Seq<char>, c: int)
    requires
        vars.no_duplicates(),
        is_column(vars, name, c),
    ensures
        bound_ids(vars, rows, name) == bound_cells(rows, c),
    decreases rows.len(),
{
    let keep = |r: Seq<u32>| r[c] != NULL_ID;
    let f = |r: Seq<u32>| r[c];
    reveal(Seq::filter);
    lemma_place_at(vars, c);
    if rows.len() > 0 {
        lemma_bound_cells(vars, rows.drop_last(), name, c);
        let before = rows.drop_last().filter(keep);
        assert(before.push(rows.last()).map_values(f) =~= before.map_values(f).push(f(rows.last())));
    } else {
        assert(bound_cells(rows, c) =~= Seq::<u32>::empty());
    }
}

proof fn lemma_no_cells(vars: Seq<Seq<char>>, rows: Seq<Seq<u32>>, name: Seq<char>)
    requires
        !vars.contains(name),
    ensures
        bound_ids(vars, rows, name) == Seq::<u32>::empty(),
    decreases rows.len(),
{
    lemma_place_bounds(vars, name);
    if rows.len() > 0 {
        lemma_no_cells(vars, rows.drop_last(), name);
    }
}

proof fn lemma_numbers_of(
    num: Replies,
    keys: Seq<Seq<char>>,
    vars: Seq<Seq<char>>,
    rows: Seq<Seq<u32>>,
    e: ExprView,
)
    ensures
        row_numbers(num, keys, vars, rows, e) == numbers_of(num, keys, vars, rows, e),
    decreases rows.len(),
{
    let keep = |r: Seq<u32>| as_number(ev(e, Scope { num, keys, vars, row: r })) is Some;
    let f = |r: Seq<u32>| as_number(ev(e, Scope { num, keys, vars, row: r }))->0;
    reveal(Seq::filter);
    if rows.len() > 0 {
        lemma_numbers_of(num, keys, vars, rows.drop_last(), e);
        let before = rows.drop_last().filter(keep);
        assert(before.push(rows.last()).map_values(f) =~= before.map_values(f).push(f(rows.last())));
        assert(keep(rows.last()) == (as_number(ev(e, Scope { num, keys, vars, row: rows.last() })) is Some));
    } else {
        assert(numbers_of(num, keys, vars, rows, e) =~= Seq::<u64>::empty());
    }
}

// --- Counting ----------------------------------------------------------------------------------

/// A whole number, in decimal digits, as a term.
pub open spec fn whole(n: nat) -> Computed {
    Computed::Term(decimal(n), typed("http://www.w3.org/2001/XMLSchema#integer"@))
}

/// `COUNT(*)` counts the rows; with `DISTINCT`, the different ones.
pub proof fn law_count_rows(
    num: Replies,
    keys: Seq<Seq<char>>,
    vars: Seq<Seq<char>>,
    rows: Seq<Seq<u32>>,
    a: AggregateView,
)
    requires
        a.function is Count,
        a.argument is None,
    ensures
        computed(num, keys, vars, rows, a) == whole(
            if a.distinct {
                rows.to_set().len()
            } else {
                rows.len()
            },
        ),
{
    let some = first_rows(rows);
    law_first_rows(rows);
    some.unique_seq_to_set();
    assert(some.to_set() =~= rows.to_set()) by {
        assert forall|r: Seq<u32>| some.to_set().contains(r) == rows.to_set().contains(r) by {
            assert(some.contains(r) <==> rows.contains(r));
        }
    }
}

/// `COUNT(?x)` counts the rows where the variable is bound; with `DISTINCT`, the
/// different terms that it is bound to.
pub proof fn law_count_bound(
    num: Replies,
    keys: Seq<Seq<char>>,
    vars: Seq<Seq<char>>,
    rows: Seq<Seq<u32>>,
    a: AggregateView,
    name: Seq<char>,
    c: int,
)
    requires
        a.function is Count,
        a.argument == Some(ExprView::Variable(name)),
        vars.no_duplicates(),
        is_column(vars, name, c),
    ensures
        computed(num, keys, vars, rows, a) == whole(
            if a.distinct {
                bound_cells(rows, c).to_set().len()
            } else {
                rows.filter(|r: Seq<u32>| r[c] != NULL_ID).len()
            },
        ),
{
    lemma_bound_cells(vars, rows, name, c);
    let ids = bound_cells(rows, c);
    let some = first_ids(ids);
    law_first_ids(ids);
    some.unique_seq_to_set();
    assert(some.to_set() =~= ids.to_set()) by {
        assert forall|x: u32| some.to_set().contains(x) == ids.to_set().contains(x) by {
            assert(some.contains(x) <==> ids.contains(x));
        }
    }
}

// --- Sums and means ------------------------------------------------------------------------------

/// The sum of a number and all numbers of a list, added one after the other.
pub open spec fn plus_all(num: Replies, first: u64, more: Seq<u64>) -> Option<u64>
    decreases more.len(),
{
    if more.len() == 0 {
        Some(first)
    } else {
        match num(NumberCallView::Plus(first, more[0])) {
            NumberReplyView::Number(x) => plus_all(num, x, more.drop_first()),
            _ => None,
        }
    }
}

proof fn lemma_plus_all(num: Replies, first: u64, more: Seq<u64>, x: u64)
    ensures
        plus_all(num, first, more.push(x)) == (match plus_all(num, first, more) {
            Some(s) => match num(NumberCallView::Plus(s, x)) {
                NumberReplyView::Number(y) => Some(y),
                _ => None,
            },
            None => None,
        }),
    decreases more.len(),
{
    if more.len() == 0 {
        assert(more.push(x).drop_first() =~= Seq::<u64>::empty());
        reveal_with_fuel(plus_all, 2);
    } else {
        assert(more.push(x).drop_first() =~= more.drop_first().push(x));
        assert(more.push(x)[0] == more[0]);
        if let NumberReplyView::Number(y) = num(NumberCallView::Plus(first, more[0])) {
            lemma_plus_all(num, y, more.drop_first(), x);
        }
    }
}

proof fn lemma_sum(num: Replies, s: Seq<u64>)
    requires
        s.len() > 0,
    ensures
        sum_of(num, s) == plus_all(num, s[0], s.drop_first()),
    decreases s.len(),
{
    if s.len() == 1 {
        assert(s.drop_first() =~= Seq::<u64>::empty());
    } else {
        lemma_sum(num, s.drop_last());
        assert(s.drop_last().drop_first().push(s.last()) =~= s.drop_first());
        lemma_plus_all(num, s[0], s.drop_last().drop_first(), s.last());
    }
}

/// The sum of some numbers, or their mean, as a term: a double, or the whole number zero
/// where there are none. What cannot be added up is left unbound.
pub open spec fn totals(num: Replies, s: Seq<u64>, mean: bool, out: Computed) -> bool {
    if s.len() == 0 {
        out == whole(0)
    } else {
        match plus_all(num, s[0], s.drop_first()) {
            None => out == Computed::Id(NULL_ID),
            Some(sum) => if !mean {
                out == double(num, sum)
            } else {
                match num(NumberCallView::Count(s.len() as u64)) {
                    NumberReplyView::Number(n) => match num(NumberCallView::Divide(sum, n)) {
                        NumberReplyView::Number(q) => out == double(num, q),
                        _ => out == Computed::Id(NULL_ID),
                    },
                    _ => out == Computed::Id(NULL_ID),
                }
            },
        }
    }
}

/// A number as a term.
pub open spec fn double(num: Replies, n: u64) -> Computed {
    Computed::Term(
        match num(NumberCallView::Text(n)) {
            NumberReplyView::Text(s) => s,
            _ => Seq::empty(),
        },
        typed("http://www.w3.org/2001/XMLSchema#double"@),
    )
}

/// `SUM` and `AVG` take one number for each row where the expression gives one, however
/// often a number occurs; only with `DISTINCT` are equal numbers taken once. The sum adds
/// them up, the mean divides that by how many were taken.
pub proof fn law_sum_and_mean(
    num: Replies,
    keys: Seq<Seq<char>>,
    vars: Seq<Seq<char>>,
    rows: Seq<Seq<u32>>,
    a: AggregateView,
    e: ExprView,
)
    requires
        a.function is Sum || a.function is Avg,
        a.argument == Some(e),
    ensures
        exists|s: Seq<u64>| #[trigger]
            taken(numbers_of(num, keys, vars, rows, e), same_number(), a.distinct, s) && totals(
                num,
                s,
                a.function is Avg,
                computed(num, keys, vars, rows, a),
            ),
{
    lemma_numbers_of(num, keys, vars, rows, e);
    let all = numbers_of(num, keys, vars, rows, e);
    let s = if a.distinct {
        first_numbers(all)
    } else {
        all
    };
    if a.distinct {
        let at = lemma_first_numbers(all);
        assert(firsts(all, same_number(), s, at));
    }
    assert(taken(all, same_number(), a.distinct, s));
    if s.len() > 0 {
        lemma_sum(num, s);
    }
    assert(totals(num, s, a.function is Avg, computed(num, keys, vars, rows, a)));
}

/// A row that is added to a group adds its number to the sum, whether or not the number
/// is there already.
pub proof fn law_sum_grows_by_row(
    num: Replies,
    keys: Seq<Seq<char>>,
    vars: Seq<Seq<char>>,
    rows: Seq<Seq<u32>>,
    row: Seq<u32>,
    e: ExprView,
    variable: Seq<char>,
    sum: u64,
    n: u64,
    next: u64,
)
    requires
        as_number(ev(e, Scope { num, keys, vars, row })) == Some(n),
        ({
            let s = numbers_of(num, keys, vars, rows, e);
            s.len() > 0 && plus_all(num, s[0], s.drop_first()) == Some(sum)
        }),
        num(NumberCallView::Plus(sum, n)) == NumberReplyView::Number(next),
    ensures
        ({
            let a = AggregateView {
                function: AggregateFnView::Sum,
                distinct: false,
                argument: Some(e),
                variable,
            };
            &&& computed(num, keys, vars, rows, a) == double(num, sum)
            &&& computed(num, keys, vars, rows.push(row), a) == double(num, next)
            &&& numbers_of(num, keys, vars, rows.push(row), e).len() == numbers_of(
                num,
                keys,
                vars,
                rows,
                e,
            ).len() + 1
        }),
{
    let a = AggregateView { function: AggregateFnView::Sum, distinct: false, argument: Some(e), variable };
    let s = numbers_of(num, keys, vars, rows, e);
    let t = numbers_of(num, keys, vars, rows.push(row), e);
    lemma_numbers_of(num, keys, vars, rows, e);
    lemma_numbers_of(num, keys, vars, rows.push(row), e);
    assert(rows.push(row).drop_last() =~= rows);
    assert(t == s.push(n));
    assert(t.drop_first() =~= s.drop_first().push(n));
    assert(t[0] == s[0]);
    lemma_plus_all(num, s[0], s.drop_first(), n);
    law_sum_and_mean(num, keys, vars, rows, a, e);
    law_sum_and_mean(num, keys, vars, rows.push(row), a, e);
}

// --- Extremes, samples, texts --------------------------------------------------------------------

/// The first of the terms than which none comes before (for the least) or after (for the
/// greatest).
pub open spec fn is_extreme(
    num: Replies,
    keys: Seq<Seq<char>>,
    ids: Seq<u32>,
    greatest: bool,
    k: int,
) -> bool {
    &&& 0 <= k < ids.len()
    &&& forall|j: int|
        0 <= j < ids.len() ==> !(#[trigger] beats(num, keys, ids[j], ids[k], greatest))
    &&& forall|j: int| 0 <= j < k ==> #[trigger] beats(num, keys, ids[k], ids[j], greatest)
}

/// The value of term `a` comes before that of term `b`, or after it for the greatest.
pub open spec fn beats(num: Replies, keys: Seq<Seq<char>>, a: u32, b: u32, greatest: bool) -> bool {
    if greatest {
        comes_before(id_value(num, keys, b), id_value(num, keys, a))
    } else {
        comes_before(id_value(num, keys, a), id_value(num, keys, b))
    }
}

proof fn lemma_beats(num: Replies, keys: Seq<Seq<char>>, a: u32, b: u32, c: u32, greatest: bool)
    ensures
        beats(num, keys, a, b, greatest) <==> key_side(
            key_of(id_value(num, keys, a)),
            key_of(id_value(num, keys, b)),
        ) == (if greatest {
            Side::After
        } else {
            Side::Before
        }),
        !beats(num, keys, a, a, greatest),
        beats(num, keys, a, b, greatest) ==> !beats(num, keys, b, a, greatest),
        beats(num, keys, a, b, greatest) && !beats(num, keys, c, b, greatest) ==> beats(
            num,
            keys,
            a,
            c,
            greatest,
        ),
{
    let x = id_value(num, keys, a);
    let y = id_value(num, keys, b);
    let z = id_value(num, keys, c);
    law_value_order(x, y);
    law_value_order(y, x);
    law_value_order(x, x);
    law_value_order(y, z);
    law_value_order(z, y);
    law_value_order(x, z);
    law_value_order(z, x);
    let kx = key_of(x);
    let ky = key_of(y);
    let kz = key_of(z);
    crate::sparql::sorting::law_key_order(kx, ky, kz);
    crate::sparql::sorting::law_key_order(ky, kx, kz);
    crate::sparql::sorting::law_key_order(kz, ky, kx);
    crate::sparql::sorting::law_key_order(ky, kz, kx);
    crate::sparql::sorting::law_key_order(kx, kx, kx);
    crate::sparql::sorting::law_key_order(kx, kz, ky);
    crate::sparql::sorting::law_key_order(kz, kx, ky);
}

proof fn lemma_extreme(num: Replies, keys: Seq<Seq<char>>, ids: Seq<u32>, greatest: bool) -> (k: int)
    requires
        ids.len() > 0,
    ensures
        is_extreme(num, keys, ids, greatest, k),
        ids[k] == extreme_id(
            num,
            keys,
            ids,
            if greatest {
                Side::After
            } else {
                Side::Before
            },
        ),
    decreases ids.len(),
{
    let last = ids.len() - 1;
    if ids.len() == 1 {
        lemma_beats(num, keys, ids[0], ids[0], ids[0], greatest);
        assert(is_extreme(num, keys, ids, greatest, 0));
        0
    } else {
        let rest = ids.drop_last();
        let k = lemma_extreme(num, keys, rest, greatest);
        lemma_beats(num, keys, ids[last], rest[k], rest[k], greatest);
        if beats(num, keys, ids[last], rest[k], greatest) {
            assert forall|j: int| 0 <= j < last implies #[trigger] beats(num, keys, ids[last], ids[j], greatest) by {
                assert(ids[j] == rest[j]);
                assert(!beats(num, keys, rest[j], rest[k], greatest));
                lemma_beats(num, keys, ids[last], rest[k], rest[j], greatest);
            }
            assert forall|j: int| 0 <= j < ids.len() implies !(#[trigger] beats(
                num,
                keys,
                ids[j],
                ids[last],
                greatest,
            )) by {
                lemma_beats(num, keys, ids[last], ids[j], ids[j], greatest);
                if j == last {
                    lemma_beats(num, keys, ids[j], ids[j], ids[j], greatest);
                } else {
                    assert(beats(num, keys, ids[last], ids[j], greatest));
                }
            }
            last
        } else {
            assert forall|j: int| 0 <= j < ids.len() implies !(#[trigger] beats(
                num,
                keys,
                ids[j],
                ids[k],
                greatest,
            )) by {
                if j < last {
                    assert(ids[j] == rest[j]);
                    assert(!beats(num, keys, rest[j], rest[k], greatest));
                }
            }
            assert forall|j: int| 0 <= j < k implies #[trigger] beats(num, keys, ids[k], ids[j], greatest) by {
                assert(beats(num, keys, rest[k], rest[j], greatest));
            }
            k
        }
    }
}

/// `MIN` and `MAX` give one of the terms that the variable is bound to: one than which no
/// other comes before, or after, and the first of those. Where none is bound, nothing.
pub proof fn law_min_and_max(
    num: Replies,
    keys: Seq<Seq<char>>,
    vars: Seq<Seq<char>>,
    rows: Seq<Seq<u32>>,
    a: AggregateView,
    name: Seq<char>,
    c: int,
)
    requires
        a.function is Min || a.function is Max,
        a.argument == Some(ExprView::Variable(name)),
        vars.no_duplicates(),
        is_column(vars, name, c),
    ensures
        bound_cells(rows, c).len() == 0 ==> computed(num, keys, vars, rows, a) == Computed::Id(NULL_ID),
        bound_cells(rows, c).len() > 0 ==> exists|k: int|
            #![trigger bound_cells(rows, c)[k]]
            is_extreme(num, keys, bound_cells(rows, c), a.function is Max, k) && computed(
                num,
                keys,
                vars,
                rows,
                a,
            ) == Computed::Id(bound_cells(rows, c)[k]),
{
    let s = bound_cells(rows, c);
    let greatest = a.function is Max;
    lemma_bound_cells(vars, rows, name, c);
    let ids = chosen_ids(s, a.distinct);
    law_first_ids(s);
    if s.len() > 0 {
        if a.distinct {
            assert(s.contains(s[0]));
            assert(ids.contains(s[0]));
        }
        let k = lemma_extreme(num, keys, ids, greatest);
        let side = if greatest {
            Side::After
        } else {
            Side::Before
        };
        assert(computed(num, keys, vars, rows, a) == Computed::Id(ids[k]));
        if a.distinct {
            let at = lemma_first_ids(s);
            let i = at[k];
            assert(s[i] == ids[k]);
            assert forall|j: int| 0 <= j < s.len() implies !(#[trigger] beats(num, keys, s[j], s[i], greatest)) by {
                assert(is_first_of(s, same_id(), at, j));
                let m = choose|m: int|
                    0 <= m < at.len() && #[trigger] at[m] <= j && (at[m] == j || (same_id())(s[at[m]], s[j]));
                assert(ids[m] == s[j]);
                assert(!beats(num, keys, ids[m], ids[k], greatest));
            }
            assert forall|j: int| 0 <= j < i implies #[trigger] beats(num, keys, s[i], s[j], greatest) by {
                assert(is_first_of(s, same_id(), at, j));
                let m = choose|m: int|
                    0 <= m < at.len() && #[trigger] at[m] <= j && (at[m] == j || (same_id())(s[at[m]], s[j]));
                if m >= k {
                    if m > k {
                        assert(at[k] < at[m]);
                    }
                }
                assert(ids[m] == s[j]);
                assert(beats(num, keys, ids[k], ids[m], greatest));
            }
            assert(is_extreme(num, keys, s, greatest, i));
        } else {
            assert(is_extreme(num, keys, s, greatest, k));
            assert(s[k] == ids[k]);
        }
    } else {
        if ids.len() > 0 {
            assert(ids.contains(ids[0]));
            assert(s.contains(ids[0]));
        }
    }
}

/// `SAMPLE` gives the first term that the variable is bound to.
pub proof fn law_sample(
    num: Replies,
    keys: Seq<Seq<char>>,
    vars: Seq<Seq<char>>,
    rows: Seq<Seq<u32>>,
    a: AggregateView,
    name: Seq<char>,
    c: int,
)
    requires
        a.function is Sample,
        a.argument == Some(ExprView::Variable(name)),
        vars.no_duplicates(),
        is_column(vars, name, c),
    ensures
        computed(num, keys, vars, rows, a) == Computed::Id(
            if bound_cells(rows, c).len() == 0 {
                NULL_ID
            } else {
                bound_cells(rows, c)[0]
            },
        ),
{
    let s = bound_cells(rows, c);
    lemma_bound_cells(vars, rows, name, c);
    law_first_ids(s);
    let at = lemma_first_ids(s);
    let ids = first_ids(s);
    if s.len() > 0 {
        assert(is_first_of(s, same_id(), at, 0));
        let k = choose|k: int|
            0 <= k < at.len() && #[trigger] at[k] <= 0 && (at[k] == 0 || (same_id())(s[at[k]], s[0]));
        if k > 0 {
            assert(at[0] < at[k]);
        }
        assert(ids[0] == s[at[0]]);
    } else {
        if ids.len() > 0 {
            assert(ids.contains(ids[0]));
        }
    }
}

/// The text that a term shows.
pub open spec fn term_characters(num: Replies, keys: Seq<Seq<char>>, id: u32) -> Seq<char> {
    match id_value(num, keys, id) {
        None => Seq::empty(),
        Some(Val::Num(n)) => match num(NumberCallView::Text(n)) {
            NumberReplyView::Text(s) => s,
            _ => Seq::empty(),
        },
        Some(Val::Bool(true)) => "true"@,
        Some(Val::Bool(false)) => "false"@,
        Some(Val::Iri(s)) => s,
        Some(Val::Blank(s)) => s,
        Some(Val::Str(s)) => s,
        Some(Val::Lang(s, _)) => s,
        Some(Val::Typed(s, _)) => s,
    }
}

/// Texts one after the other, with a separator between them.
pub open spec fn strung(num: Replies, keys: Seq<Seq<char>>, ids: Seq<u32>, sep: Seq<char>) -> Seq<char>
    decreases ids.len(),
{
    if ids.len() == 0 {
        Seq::empty()
    } else if ids.len() == 1 {
        term_characters(num, keys, ids[0])
    } else {
        term_characters(num, keys, ids[0]) + (sep + strung(num, keys, ids.drop_first(), sep))
    }
}

proof fn lemma_strung(num: Replies, keys: Seq<Seq<char>>, ids: Seq<u32>, sep: Seq<char>, x: u32)
    requires
        ids.len() > 0,
    ensures
        strung(num, keys, ids.push(x), sep) == strung(num, keys, ids, sep) + sep + term_characters(
            num,
            keys,
            x,
        ),
    decreases ids.len(),
{
    let all = ids.push(x);
    let t = term_characters(num, keys, x);
    let first = term_characters(num, keys, ids[0]);
    if ids.len() == 1 {
        assert(all.drop_first() =~= seq![x]);
        reveal_with_fuel(strung, 2);
        assert(first + (sep + t) =~= first + sep + t);
    } else {
        assert(all.drop_first() =~= ids.drop_first().push(x));
        lemma_strung(num, keys, ids.drop_first(), sep, x);
        let rest = strung(num, keys, ids.drop_first(), sep);
        assert(first + (sep + (rest + sep + t)) =~= first + (sep + rest) + sep + t);
    }
}

proof fn lemma_concatenated(num: Replies, keys: Seq<Seq<char>>, ids: Seq<u32>, sep: Seq<char>)
    ensures
        concatenated(num, keys, ids, sep) == strung(num, keys, ids, sep),
    decreases ids.len(),
{
    if ids.len() > 1 {
        lemma_concatenated(num, keys, ids.drop_last(), sep);
        lemma_strung(num, keys, ids.drop_last(), sep, ids.last());
        assert(ids.drop_last().push(ids.last()) =~= ids);
    }
}

/// `GROUP_CONCAT` strings the texts of the bound terms together, in the order of the rows
/// and with the separator between them; with `DISTINCT`, each term once.
pub proof fn law_group_concat(
    num: Replies,
    keys: Seq<Seq<char>>,
    vars: Seq<Seq<char>>,
    rows: Seq<Seq<u32>>,
    a: AggregateView,
    name: Seq<char>,
    sep: Seq<char>,
    c: int,
)
    requires
        a.function == AggregateFnView::Concat(sep),
        a.argument == Some(ExprView::Variable(name)),
        vars.no_duplicates(),
        is_column(vars, name, c),
    ensures
        exists|ids: Seq<u32>| #[trigger]
            taken(bound_cells(rows, c), same_id(), a.distinct, ids) && computed(num, keys, vars, rows, a)
                == Computed::Term(
                strung(num, keys, ids, sep),
                TermKind::Literal { datatype: None, lang: None },
            ),
{
    let s = bound_cells(rows, c);
    lemma_bound_cells(vars, rows, name, c);
    let ids = chosen_ids(s, a.distinct);
    if a.distinct {
        let at = lemma_first_ids(s);
        assert(firsts(s, same_id(), ids, at));
    }
    assert(taken(s, same_id(), a.distinct, ids));
    lemma_concatenated(num, keys, ids, sep);
}

/// An aggregate of a variable that is no column takes nothing.
pub proof fn law_aggregate_of_nothing(
    num: Replies,
    keys: Seq<Seq<char>>,
    vars: Seq<Seq<char>>,
    rows: Seq<Seq<u32>>,
    a: AggregateView,
    name: Seq<char>,
)
    requires
        a.argument == Some(ExprView::Variable(name)),
        !vars.contains(name),
    ensures
        a.function is Count ==> computed(num, keys, vars, rows, a) == whole(0),
        a.function is Min || a.function is Max || a.function is Sample ==> computed(
            num,
            keys,
            vars,
            rows,
            a,
        ) == Computed::Id(NULL_ID),
        a.function is Concat ==> computed(num, keys, vars, rows, a) == Computed::Term(
            Seq::empty(),
            TermKind::Literal { datatype: None, lang: None },
        ),
{
    lemma_no_cells(vars, rows, name);
}

/// Which aggregates can be computed: a count of rows or of a variable, sums and means of
/// any expression, the others of a variable.
pub proof fn law_computable_aggregates(a: AggregateView)
    ensures
        aggregate_problem(a) is None <==> {
            ||| a.function is Count && a.argument is None
            ||| (a.function is Sum || a.function is Avg) && a.argument is Some
            ||| !(a.function is Unsupported) && a.argument is Some && (a.argument->0) is Variable
        },
{
}

// --- Groups --------------------------------------------------------------------------------------

proof fn lemma_members(by: Seq<Seq<char>>, t: Table, rows: Seq<Seq<u32>>, key: Seq<u32>)
    ensures
        rows_under(
            rows.map_values(|r: Seq<u32>| aligned(by, t.vars, r)),
            rows,
            key,
        ) == rows.filter(|r: Seq<u32>| aligned(by, t.vars, r) == key),
    decreases rows.len(),
{
    let f = |r: Seq<u32>| aligned(by, t.vars, r);
    reveal(Seq::filter);
    if rows.len() > 0 {
        lemma_members(by, t, rows.drop_last(), key);
        assert(rows.map_values(f).drop_last() =~= rows.drop_last().map_values(f));
    } else {
        assert(rows.filter(|r: Seq<u32>| aligned(by, t.vars, r) == key) =~= rows);
        assert(rows =~= Seq::<Seq<u32>>::empty());
    }
}

/// The values of the group variables in a row; unbound for one that is no column.
pub open spec fn group_key(by: Seq<Seq<char>>, vars: Seq<Seq<char>>, row: Seq<u32>, key: Seq<u32>) -> bool {
    &&& key.len() == by.len()
    &&& forall|i: int, c: int|
        #![trigger by[i], vars[c]]
        0 <= i < by.len() && is_column(vars, by[i], c) ==> key[i] == row[c]
    &&& forall|i: int| 0 <= i < by.len() && !vars.contains(#[trigger] by[i]) ==> key[i] == NULL_ID
}

pub proof fn lemma_group_key(by: Seq<Seq<char>>, vars: Seq<Seq<char>>, row: Seq<u32>, key: Seq<u32>)
    requires
        vars.no_duplicates(),
    ensures
        group_key(by, vars, row, key) <==> key == aligned(by, vars, row),
{
    let k = aligned(by, vars, row);
    assert forall|i: int, c: int|
        #![trigger by[i], vars[c]]
        0 <= i < by.len() && is_column(vars, by[i], c) implies k[i] == row[c] by {
        lemma_place_at(vars, c);
    }
    assert forall|i: int| 0 <= i < by.len() && !vars.contains(#[trigger] by[i]) implies k[i] == NULL_ID by {
        lemma_place_bounds(vars, by[i]);
    }
    if group_key(by, vars, row, key) {
        assert forall|i: int| 0 <= i < by.len() implies key[i] == k[i] by {
            lemma_place_bounds(vars, by[i]);
            if vars.contains(by[i]) {
                let c = place(vars, by[i]);
                assert(is_column(vars, by[i], c));
                assert(vars[c] == by[i]);
            }
        }
        assert(key =~= k);
    }
}

/// The groups have different keys, each the key of some row; every row is in the group of
/// its key and in no other, in its order. Without group variables there is one group of
/// all rows.
pub proof fn law_groups(by: Seq<Seq<char>>, t: Table, key: Seq<u32>)
    requires
        t.vars.no_duplicates(),
    ensures
        group_keys(by, t).no_duplicates(),
        by.len() > 0 ==> (group_keys(by, t).contains(key) <==> exists|i: int|
            0 <= i < t.rows.len() && group_key(by, t.vars, #[trigger] t.rows[i], key)),
        by.len() == 0 ==> group_keys(by, t) == seq![Seq::<u32>::empty()] && group_members(
            by,
            t,
            Seq::empty(),
        ) == t.rows,
        group_members(by, t, key) == t.rows.filter(|r: Seq<u32>| group_key(by, t.vars, r, key)),
{
    let f = |r: Seq<u32>| aligned(by, t.vars, r);
    let all = aligned_rows(by, t);
    law_first_rows(all);
    lemma_members(by, t, t.rows, key);
    assert(all =~= t.rows.map_values(f));
    let p = |r: Seq<u32>| aligned(by, t.vars, r) == key;
    let q = |r: Seq<u32>| group_key(by, t.vars, r, key);
    assert forall|r: Seq<u32>| #[trigger] p(r) == q(r) by {
        lemma_group_key(by, t.vars, r, key);
    }
    assert(p =~= q);
    if by.len() > 0 {
        if group_keys(by, t).contains(key) {
            assert(all.contains(key));
            let i = choose|i: int| 0 <= i < all.len() && all[i] == key;
            lemma_group_key(by, t.vars, t.rows[i], key);
        }
        if exists|i: int| 0 <= i < t.rows.len() && group_key(by, t.vars, #[trigger] t.rows[i], key) {
            let i = choose|i: int| 0 <= i < t.rows.len() && group_key(by, t.vars, #[trigger] t.rows[i], key);
            lemma_group_key(by, t.vars, t.rows[i], key);
            assert(all[i] == key);
            assert(all.contains(key));
        }
    } else {
        let none = Seq::<u32>::empty();
        lemma_members(by, t, t.rows, none);
        let every = |r: Seq<u32>| aligned(by, t.vars, r) == none;
        assert forall|r: Seq<u32>| #[trigger] every(r) by {
            assert(aligned(by, t.vars, r) =~= none);
        }
        lemma_filter_all(t.rows, every);
    }
}

proof fn lemma_filter_all(s: Seq<Seq<u32>>, p: spec_fn(Seq<u32>) -> bool)
    requires
        forall|r: Seq<u32>| #[trigger] p(r),
    ensures
        s.filter(p) == s,
    decreases s.len(),
{
    reveal(Seq::filter);
    if s.len() > 0 {
        lemma_filter_all(s.drop_last(), p);
        assert(s =~= s.drop_last().push(s.last()));
    }
}

/// The cell of a group holds what the aggregate computes over the rows of the group: the
/// term that it picks, or the one that it makes, under its identifier in the dictionary.
pub open spec fn cell_holds(after: Seq<Seq<char>>, cell: u32, c: Computed) -> bool {
    match c {
        Computed::Id(x) => cell == x,
        Computed::Term(s, k) => cell < after.len() && after[cell as int] == term_key(s, k),
    }
}

/// Aggregate `m` of group `g`, computed with some dictionary on the way from the first to
/// the last.
pub open spec fn cell_computed(
    num: Replies,
    keys: Seq<Seq<char>>,
    after: Seq<Seq<char>>,
    vars: Seq<Seq<char>>,
    rows: Seq<Seq<u32>>,
    a: AggregateView,
    cell: u32,
) -> bool {
    exists|k: Seq<Seq<char>>| #[trigger]
        grown(keys, k) && grown(k, after) && cell_holds(after, cell, computed(num, k, vars, rows, a))
}

proof fn lemma_interned_grows(keys: Seq<Seq<char>>, term: (Seq<char>, TermKind))
    requires
        keys.len() <= u32::MAX,
    ensures
        ({
            let (id, after) = interned(keys, term);
            &&& grown(keys, after)
            &&& after.len() <= u32::MAX
            &&& id is Some ==> id->0 < after.len() && after[id->0 as int] == term_key(term.0, term.1)
        }),
{
    let key = term_key(term.0, term.1);
    if keys.contains(key) {
        let i = keys.index_of(key);
        assert(keys[i] == key);
    }
}

proof fn lemma_transitive(a: Seq<Seq<char>>, b: Seq<Seq<char>>, c: Seq<Seq<char>>)
    requires
        grown(a, b),
        grown(b, c),
    ensures
        grown(a, c),
        forall|i: int| 0 <= i < b.len() ==> #[trigger] c[i] == b[i],
{
    assert(a =~= c.take(a.len() as int));
    assert forall|i: int| 0 <= i < b.len() implies #[trigger] c[i] == b[i] by {
        assert(b[i] == c.take(b.len() as int)[i]);
    }
}

proof fn lemma_cell_stays(
    num: Replies,
    keys: Seq<Seq<char>>,
    after: Seq<Seq<char>>,
    later: Seq<Seq<char>>,
    vars: Seq<Seq<char>>,
    rows: Seq<Seq<u32>>,
    a: AggregateView,
    cell: u32,
)
    requires
        cell_computed(num, keys, after, vars, rows, a, cell),
        grown(after, later),
    ensures
        cell_computed(num, keys, later, vars, rows, a, cell),
{
    let k = choose|k: Seq<Seq<char>>| #[trigger]
        grown(keys, k) && grown(k, after) && cell_holds(after, cell, computed(num, k, vars, rows, a));
    lemma_transitive(k, after, later);
    assert(grown(keys, k) && grown(k, later) && cell_holds(later, cell, computed(num, k, vars, rows, a)));
}

proof fn lemma_cells(
    num: Replies,
    keys: Seq<Seq<char>>,
    vars: Seq<Seq<char>>,
    rows: Seq<Seq<u32>>,
    aggs: Seq<AggregateView>,
    m: int,
)
    requires
        keys.len() <= u32::MAX,
        0 <= m <= aggs.len(),
    ensures
        ({
            let (cells, after) = group_cells(num, keys, vars, rows, aggs, m);
            &&& grown(keys, after)
            &&& after.len() <= u32::MAX
            &&& cells is Some ==> (cells->0).len() == m && forall|i: int|
                0 <= i < m ==> #[trigger] cell_computed(
                    num,
                    keys,
                    after,
                    vars,
                    rows,
                    aggs[i],
                    (cells->0)[i],
                )
        }),
    decreases m,
{
    if m > 0 {
        lemma_cells(num, keys, vars, rows, aggs, m - 1);
        let before = group_cells(num, keys, vars, rows, aggs, m - 1);
        let now = group_cells(num, keys, vars, rows, aggs, m);
        if before.0 is Some {
            let c = computed(num, before.1, vars, rows, aggs[m - 1]);
            if let Computed::Term(s, k) = c {
                lemma_interned_grows(before.1, (s, k));
            }
            lemma_transitive(keys, before.1, now.1);
            if now.0 is Some {
                let cells = now.0->0;
                assert forall|i: int| 0 <= i < m implies #[trigger] cell_computed(
                    num,
                    keys,
                    now.1,
                    vars,
                    rows,
                    aggs[i],
                    cells[i],
                ) by {
                    if i < m - 1 {
                        assert(cells[i] == (before.0->0)[i]);
                        assert(cell_computed(num, keys, before.1, vars, rows, aggs[i], (before.0->0)[i]));
                        lemma_cell_stays(num, keys, before.1, now.1, vars, rows, aggs[i], cells[i]);
                    } else {
                        assert(cell_holds(now.1, cells[i], c));
                        assert(grown(keys, before.1) && grown(before.1, now.1));
                    }
                }
            }
        }
    }
}

/// Row `g` of the groups: the key of the group and then its aggregates.
pub open spec fn group_row_right(
    num: Replies,
    keys: Seq<Seq<char>>,
    after: Seq<Seq<char>>,
    by: Seq<Seq<char>>,
    aggs: Seq<AggregateView>,
    t: Table,
    g: int,
    row: Seq<u32>,
) -> bool {
    let key = group_keys(by, t)[g];
    &&& row.len() == by.len() + aggs.len()
    &&& row.take(by.len() as int) == key
    &&& forall|i: int|
        0 <= i < aggs.len() ==> cell_computed(
            num,
            keys,
            after,
            t.vars,
            t.rows.filter(|r: Seq<u32>| group_key(by, t.vars, r, key)),
            aggs[i],
            #[trigger] row[by.len() + i],
        )
}

proof fn lemma_group_rows(
    num: Replies,
    keys: Seq<Seq<char>>,
    by: Seq<Seq<char>>,
    aggs: Seq<AggregateView>,
    t: Table,
    n: int,
)
    requires
        keys.len() <= u32::MAX,
        t.vars.no_duplicates(),
        0 <= n <= group_keys(by, t).len(),
    ensures
        ({
            let (rows, after) = group_rows(num, keys, by, aggs, t, n);
            &&& grown(keys, after)
            &&& after.len() <= u32::MAX
            &&& rows is Some ==> (rows->0).len() == n && forall|g: int|
                0 <= g < n ==> group_row_right(num, keys, after, by, aggs, t, g, #[trigger] (rows->0)[g])
        }),
    decreases n,
{
    if n > 0 {
        lemma_group_rows(num, keys, by, aggs, t, n - 1);
        let before = group_rows(num, keys, by, aggs, t, n - 1);
        let now = group_rows(num, keys, by, aggs, t, n);
        if before.0 is Some {
            let key = group_keys(by, t)[n - 1];
            law_groups(by, t, key);
            let members = group_members(by, t, key);
            lemma_cells(num, before.1, t.vars, members, aggs, aggs.len() as int);
            lemma_transitive(keys, before.1, now.1);
            if now.0 is Some {
                let rows = now.0->0;
                assert forall|g: int| 0 <= g < n implies group_row_right(
                    num,
                    keys,
                    now.1,
                    by,
                    aggs,
                    t,
                    g,
                    #[trigger] rows[g],
                ) by {
                    if g < n - 1 {
                        assert(rows[g] == (before.0->0)[g]);
                        lemma_row_stays(num, keys, before.1, now.1, by, aggs, t, g, rows[g]);
                    } else {
                        let cells = group_cells(num, before.1, t.vars, members, aggs, aggs.len() as int).0->0;
                        assert(key.len() == by.len()) by {
                            lemma_key_len(by, t, n - 1);
                        }
                        assert(rows[g] == key + cells);
                        assert(rows[g].take(by.len() as int) =~= key);
                        assert forall|i: int| 0 <= i < aggs.len() implies cell_computed(
                            num,
                            keys,
                            now.1,
                            t.vars,
                            members,
                            aggs[i],
                            #[trigger] rows[g][by.len() + i],
                        ) by {
                            assert(rows[g][by.len() + i] == cells[i]);
                            assert(cell_computed(num, before.1, now.1, t.vars, members, aggs[i], cells[i]));
                            lemma_cell_from(num, keys, before.1, now.1, t.vars, members, aggs[i], cells[i]);
                        }
                    }
                }
            }
        }
    }
}

proof fn lemma_cell_from(
    num: Replies,
    first: Seq<Seq<char>>,
    keys: Seq<Seq<char>>,
    after: Seq<Seq<char>>,
    vars: Seq<Seq<char>>,
    rows: Seq<Seq<u32>>,
    a: AggregateView,
    cell: u32,
)
    requires
        grown(first, keys),
        cell_computed(num, keys, after, vars, rows, a, cell),
    ensures
        cell_computed(num, first, after, vars, rows, a, cell),
{
    let k = choose|k: Seq<Seq<char>>| #[trigger]
        grown(keys, k) && grown(k, after) && cell_holds(after, cell, computed(num, k, vars, rows, a));
    lemma_transitive(first, keys, k);
    assert(grown(first, k) && grown(k, after));
}

proof fn lemma_row_stays(
    num: Replies,
    keys: Seq<Seq<char>>,
    after: Seq<Seq<char>>,
    later: Seq<Seq<char>>,
    by: Seq<Seq<char>>,
    aggs: Seq<AggregateView>,
    t: Table,
    g: int,
    row: Seq<u32>,
)
    requires
        group_row_right(num, keys, after, by, aggs, t, g, row),
        grown(after, later),
    ensures
        group_row_right(num, keys, later, by, aggs, t, g, row),
{
    let key = group_keys(by, t)[g];
    let members = t.rows.filter(|r: Seq<u32>| group_key(by, t.vars, r, key));
    assert forall|i: int| 0 <= i < aggs.len() implies cell_computed(
        num,
        keys,
        later,
        t.vars,
        members,
        aggs[i],
        #[trigger] row[by.len() + i],
    ) by {
        lemma_cell_stays(num, keys, after, later, t.vars, members, aggs[i], row[by.len() + i]);
    }
}

proof fn lemma_key_len(by: Seq<Seq<char>>, t: Table, g: int)
    requires
        0 <= g < group_keys(by, t).len(),
    ensures
        group_keys(by, t)[g].len() == by.len(),
{
    if by.len() > 0 {
        let all = aligned_rows(by, t);
        law_first_rows(all);
        assert(first_rows(all).contains(first_rows(all)[g]));
        assert(all.contains(first_rows(all)[g]));
        let i = choose|i: int| 0 <= i < all.len() && all[i] == first_rows(all)[g];
    }
}

/// Grouping gives one row for each group: its key under the group variables, then, under
/// the variables of the aggregates, what each of them computes over the rows of the group.
/// The dictionary only grows.
pub proof fn law_grouping(
    num: Replies,
    keys: Seq<Seq<char>>,
    by: Seq<Seq<char>>,
    aggs: Seq<AggregateView>,
    t: Table,
)
    requires
        keys.len() <= u32::MAX,
        t.vars.no_duplicates(),
        group_outcome(num, keys, by, aggs, t).0 is Ok,
    ensures
        ({
            let (r, after) = group_outcome(num, keys, by, aggs, t);
            let out = r->Ok_0;
            &&& grown(keys, after)
            &&& out.vars.len() == by.len() + aggs.len()
            &&& forall|i: int| 0 <= i < by.len() ==> #[trigger] out.vars[i] == by[i]
            &&& forall|i: int| 0 <= i < aggs.len() ==> out.vars[by.len() + i] == (#[trigger] aggs[i]).variable
            &&& out.rows.len() == group_keys(by, t).len()
            &&& forall|g: int|
                0 <= g < out.rows.len() ==> group_row_right(
                    num,
                    keys,
                    after,
                    by,
                    aggs,
                    t,
                    g,
                    #[trigger] out.rows[g],
                )
        }),
{
    lemma_group_rows(num, keys, by, aggs, t, group_keys(by, t).len() as int);
}

} // verus!
