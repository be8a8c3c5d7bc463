//! Groups of solutions and their aggregates.

use crate::bytes::Side;
use crate::fxmap::{fx_get, fx_insert, fx_new, row_map, rows_get, rows_insert, rows_new};
use crate::hypertrie::dictionary::{plain, typed, Dictionary, TermKind, TermType};
use crate::hypertrie::executor::place;
use crate::hypertrie::rows::{first_rows, law_first_rows, RowBlock};
use crate::hypertrie::NULL_ID;
use crate::idset::IdSet;
use crate::sparql::algebra::{
    aggregates_view, texts, Aggregate, AggregateFn, AggregateFnView, AggregateView, Expr, ExprView,
};
use crate::sparql::bind::{dictionary_full_text, intern, interned};
use crate::sparql::expr::{column_of, ev, eval, str_of, value_text, Scope};
use crate::sparql::numbers::{
    ask_number, ask_text, is_zero, number_in, numbers_ok, replies, text_in, NumberCall,
    NumberCallView, NumberReply, Replies,
};
use crate::sparql::sorting::{compare_keys, key_of, key_side, order_key, OrderKey};
use crate::sparql::tables::{
    aligned, aligned_rows, append_aligned, copy_vars, outcome, Outcome, Solutions, Table,
};
use crate::sparql::values::{as_num, id_value, term_to_value, val_number};
use crate::text::{decimal, decimal_text, owned};
use rustc_hash::FxHashMap;
use vstd::prelude::*;
use vstd::slice::slice_to_vec;

verus! {

// --- What aggregates are computed from ---------------------------------------------

/// The identifiers that a variable is bound to, row by row.
pub open spec fn bound_ids(vars: Seq<Seq<char>>, rows: Seq<Seq<u32>>, name: Seq<char>) -> Seq<u32>
    decreases rows.len(),
{
    if rows.len() == 0 {
        Seq::empty()
    } else {
        let before = bound_ids(vars, rows.drop_last(), name);
        let c = place(vars, name);
        if c < vars.len() && rows.last()[c] != NULL_ID {
            before.push(rows.last()[c])
        } else {
            before
        }
    }
}

/// Each identifier where it first occurs.
pub open spec fn first_ids(s: Seq<u32>) -> Seq<u32>
    decreases s.len(),
{
    if s.len() == 0 {
        Seq::empty()
    } else if s.drop_last().contains(s.last()) {
        first_ids(s.drop_last())
    } else {
        first_ids(s.drop_last()).push(s.last())
    }
}

/// All of them, or each once.
pub open spec fn chosen_ids(ids: Seq<u32>, distinct: bool) -> Seq<u32> {
    if distinct {
        first_ids(ids)
    } else {
        ids
    }
}

/// Dropping repetitions keeps exactly the identifiers that were there, each
/// once.
pub proof fn law_first_ids(s: Seq<u32>)
    ensures
        forall|x: u32| first_ids(s).contains(x) <==> s.contains(x),
        first_ids(s).no_duplicates(),
    decreases s.len(),
{
    if s.len() > 0 {
        let rest = s.drop_last();
        law_first_ids(rest);
        assert(s =~= rest.push(s.last()));
        assert forall|x: u32| first_ids(s).contains(x) <==> s.contains(x) by {
            crate::sorted::lemma_push_contains(rest, s.last(), x);
            crate::sorted::lemma_push_contains(first_ids(rest), s.last(), x);
        }
    }
}

/// The numbers among the values of an expression, row by row.
pub open spec fn row_numbers(
    num: Replies,
    keys: Seq<Seq<char>>,
    vars: Seq<Seq<char>>,
    rows: Seq<Seq<u32>>,
    e: ExprView,
) -> Seq<u64>
    decreases rows.len(),
{
    if rows.len() == 0 {
        Seq::empty()
    } else {
        let before = row_numbers(num, keys, vars, rows.drop_last(), e);
        match ev(e, Scope { num, keys, vars, row: rows.last() }) {
            Some(v) => match val_number(v) {
                Some(n) => before.push(n),
                None => before,
            },
            None => before,
        }
    }
}

/// One bit pattern for both zeros.
pub open spec fn plain_bits(n: u64) -> u64 {
    if is_zero(n) {
        0
    } else {
        n
    }
}

/// Whether a number occurs in a list.
pub open spec fn has_number(s: Seq<u64>, n: u64) -> bool {
    exists|i: int| 0 <= i < s.len() && plain_bits(#[trigger] s[i]) == plain_bits(n)
}

/// Each number where it first occurs.
pub open spec fn first_numbers(s: Seq<u64>) -> Seq<u64>
    decreases s.len(),
{
    if s.len() == 0 {
        Seq::empty()
    } else if has_number(s.drop_last(), s.last()) {
        first_numbers(s.drop_last())
    } else {
        first_numbers(s.drop_last()).push(s.last())
    }
}

/// The sum of a list that is not empty.
pub open spec fn sum_of(num: Replies, s: Seq<u64>) -> Option<u64>
    decreases s.len(),
{
    if s.len() <= 1 {
        Some(s[0])
    } else {
        match sum_of(num, s.drop_last()) {
            Some(x) => number_in(num(NumberCallView::Plus(x, s.last()))),
            None => None,
        }
    }
}

/// The sum or the mean of a list that is not empty.
pub open spec fn total_of(num: Replies, s: Seq<u64>, mean: bool) -> Option<u64> {
    match sum_of(num, s) {
        Some(x) => if mean {
            match number_in(num(NumberCallView::Count(s.len() as u64))) {
                Some(n) => number_in(num(NumberCallView::Divide(x, n))),
                None => None,
            }
        } else {
            Some(x)
        },
        None => None,
    }
}

/// The first of the identifiers that come earliest (or latest) in the order of
/// values.
pub open spec fn extreme_id(num: Replies, keys: Seq<Seq<char>>, ids: Seq<u32>, side: Side) -> u32
    decreases ids.len(),
{
    if ids.len() <= 1 {
        ids[0]
    } else {
        let best = extreme_id(num, keys, ids.drop_last(), side);
        if key_side(
            key_of(id_value(num, keys, ids.last())),
            key_of(id_value(num, keys, best)),
        ) == side {
            ids.last()
        } else {
            best
        }
    }
}

/// The text of the value of an identifier.
pub open spec fn id_text(num: Replies, keys: Seq<Seq<char>>, id: u32) -> Seq<char> {
    match id_value(num, keys, id) {
        Some(v) => str_of(num, v),
        None => Seq::empty(),
    }
}

/// The texts of the values, with a separator between them.
pub open spec fn concatenated(num: Replies, keys: Seq<Seq<char>>, ids: Seq<u32>, sep: Seq<char>) -> Seq<
    char,
>
    decreases ids.len(),
{
    if ids.len() == 0 {
        Seq::empty()
    } else if ids.len() == 1 {
        id_text(num, keys, ids[0])
    } else {
        concatenated(num, keys, ids.drop_last(), sep) + sep + id_text(num, keys, ids.last())
    }
}

// --- Aggregates ------------------------------------------------------------------------

/// What an aggregate gives: a term that is there, or one to be added.
#[verifier::ext_equal]
pub enum Computed {
    Id(u32),
    Term(Seq<char>, TermKind),
}

/// A whole number as a term.
pub open spec fn integer_term(n: nat) -> Computed {
    Computed::Term(decimal(n), typed("http://www.w3.org/2001/XMLSchema#integer"@))
}

/// The name of an aggregate in error texts.
pub open spec fn aggregate_name(f: AggregateFnView) -> Seq<char> {
    match f {
        AggregateFnView::Count => "COUNT"@,
        AggregateFnView::Sum => "SUM"@,
        AggregateFnView::Avg => "AVG"@,
        AggregateFnView::Min => "MIN"@,
        AggregateFnView::Max => "MAX"@,
        AggregateFnView::Sample => "SAMPLE"@,
        AggregateFnView::Concat(_) => "GROUP_CONCAT"@,
        AggregateFnView::Unsupported(n) => n,
    }
}

/// The variable that an aggregate is computed from.
pub open spec fn aggregate_var(a: AggregateView) -> Option<Seq<char>> {
    match a.argument {
        Some(ExprView::Variable(n)) => Some(n),
        _ => None,
    }
}

/// What stands in the way of an aggregate, if anything does. Sums and means take
/// any expression, a count also takes none; the others need a variable.
pub open spec fn aggregate_problem(a: AggregateView) -> Option<Seq<char>> {
    match a.function {
        AggregateFnView::Unsupported(n) => Some("Unsupported aggregate: "@ + n),
        AggregateFnView::Sum | AggregateFnView::Avg => if a.argument is Some {
            None
        } else {
            Some(aggregate_name(a.function) + " needs an argument"@)
        },
        AggregateFnView::Count => if a.argument is None || aggregate_var(a) is Some {
            None
        } else {
            Some("COUNT needs a bare variable"@)
        },
        _ => if aggregate_var(a) is Some {
            None
        } else {
            Some(aggregate_name(a.function) + " needs a bare variable"@)
        },
    }
}

/// What an aggregate gives over a group.
pub open spec fn computed(
    num: Replies,
    keys: Seq<Seq<char>>,
    vars: Seq<Seq<char>>,
    rows: Seq<Seq<u32>>,
    a: AggregateView,
) -> Computed {
    let ids = match aggregate_var(a) {
        Some(n) => chosen_ids(bound_ids(vars, rows, n), a.distinct),
        None => Seq::empty(),
    };
    match a.function {
        AggregateFnView::Count => match a.argument {
            None => integer_term(
                if a.distinct {
                    first_rows(rows).len()
                } else {
                    rows.len()
                },
            ),
            Some(_) => integer_term(ids.len()),
        },
        AggregateFnView::Sum | AggregateFnView::Avg => match a.argument {
            Some(e) => {
                let all = row_numbers(num, keys, vars, rows, e);
                let some = if a.distinct {
                    first_numbers(all)
                } else {
                    all
                };
                if some.len() == 0 {
                    integer_term(0)
                } else {
                    match total_of(num, some, a.function is Avg) {
                        Some(x) => Computed::Term(
                            text_in(num(NumberCallView::Text(x))),
                            typed("http://www.w3.org/2001/XMLSchema#double"@),
                        ),
                        None => Computed::Id(NULL_ID),
                    }
                }
            },
            None => Computed::Id(NULL_ID),
        },
        AggregateFnView::Min | AggregateFnView::Max => Computed::Id(
            if ids.len() == 0 {
                NULL_ID
            } else {
                extreme_id(
                    num,
                    keys,
                    ids,
                    if a.function is Min {
                        Side::Before
                    } else {
                        Side::After
                    },
                )
            },
        ),
        AggregateFnView::Sample => Computed::Id(
            if ids.len() == 0 {
                NULL_ID
            } else {
                ids[0]
            },
        ),
        AggregateFnView::Concat(sep) => Computed::Term(concatenated(num, keys, ids, sep), plain()),
        AggregateFnView::Unsupported(_) => Computed::Id(NULL_ID),
    }
}

/// The identifier of what an aggregate gives, and the dictionary after that.
pub open spec fn computed_id(keys: Seq<Seq<char>>, c: Computed) -> (Option<u32>, Seq<Seq<char>>) {
    match c {
        Computed::Id(x) => (Some(x), keys),
        Computed::Term(t, k) => interned(keys, (t, k)),
    }
}

/// The first `m` aggregates of a group, and the dictionary after that.
pub open spec fn group_cells(
    num: Replies,
    keys: Seq<Seq<char>>,
    vars: Seq<Seq<char>>,
    rows: Seq<Seq<u32>>,
    aggs: Seq<AggregateView>,
    m: int,
) -> (Option<Seq<u32>>, Seq<Seq<char>>)
    decreases m,
{
    if m <= 0 {
        (Some(Seq::empty()), keys)
    } else {
        let before = group_cells(num, keys, vars, rows, aggs, m - 1);
        match before.0 {
            None => before,
            Some(cells) => {
                let (id, after) = computed_id(
                    before.1,
                    computed(num, before.1, vars, rows, aggs[m - 1]),
                );
                match id {
                    Some(x) => (Some(cells.push(x)), after),
                    None => (None, after),
                }
            },
        }
    }
}

// --- Groups ----------------------------------------------------------------------------

/// The keys of the groups, in the order in which they first occur. Without group
/// variables there is one group, even if there are no rows.
pub open spec fn group_keys(by: Seq<Seq<char>>, t: Table) -> Seq<Seq<u32>> {
    if by.len() == 0 {
        seq![Seq::empty()]
    } else {
        first_rows(aligned_rows(by, t))
    }
}

/// The rows whose key is `key`.
pub open spec fn rows_under(keys: Seq<Seq<u32>>, rows: Seq<Seq<u32>>, key: Seq<u32>) -> Seq<Seq<u32>>
    decreases rows.len(),
{
    if rows.len() == 0 || keys.len() == 0 {
        Seq::empty()
    } else {
        let before = rows_under(keys.drop_last(), rows.drop_last(), key);
        if keys.last() == key {
            before.push(rows.last())
        } else {
            before
        }
    }
}

/// The rows of a group.
pub open spec fn group_members(by: Seq<Seq<char>>, t: Table, key: Seq<u32>) -> Seq<Seq<u32>> {
    rows_under(aligned_rows(by, t), t.rows, key)
}

/// The rows of the first `n` groups, and the dictionary after that.
pub open spec fn group_rows(
    num: Replies,
    keys: Seq<Seq<char>>,
    by: Seq<Seq<char>>,
    aggs: Seq<AggregateView>,
    t: Table,
    n: int,
) -> (Option<Seq<Seq<u32>>>, Seq<Seq<char>>)
    decreases n,
{
    if n <= 0 {
        (Some(Seq::empty()), keys)
    } else {
        let before = group_rows(num, keys, by, aggs, t, n - 1);
        match before.0 {
            None => before,
            Some(rows) => {
                let key = group_keys(by, t)[n - 1];
                let (cells, after) = group_cells(
                    num,
                    before.1,
                    t.vars,
                    group_members(by, t, key),
                    aggs,
                    aggs.len() as int,
                );
                match cells {
                    Some(c) => (Some(rows.push(key + c)), after),
                    None => (None, after),
                }
            },
        }
    }
}

/// The variables of the aggregates.
pub open spec fn aggregate_vars(aggs: Seq<AggregateView>) -> Seq<Seq<char>> {
    Seq::new(aggs.len(), |i: int| aggs[i].variable)
}

/// The first problem of a list of aggregates, from number `i` on.
pub open spec fn first_problem(aggs: Seq<AggregateView>, i: int) -> Option<Seq<char>>
    decreases aggs.len() - i,
{
    if i < 0 || i >= aggs.len() {
        None
    } else {
        match aggregate_problem(aggs[i]) {
            Some(e) => Some(e),
            None => first_problem(aggs, i + 1),
        }
    }
}

/// The groups of a table with their aggregates, and the dictionary after that.
pub open spec fn group_outcome(
    num: Replies,
    keys: Seq<Seq<char>>,
    by: Seq<Seq<char>>,
    aggs: Seq<AggregateView>,
    t: Table,
) -> (Outcome, Seq<Seq<char>>) {
    match first_problem(aggs, 0) {
        Some(e) => (Err(e), keys),
        None => {
            let (rows, after) = group_rows(
                num,
                keys,
                by,
                aggs,
                t,
                group_keys(by, t).len() as int,
            );
            (
                match rows {
                    Some(r) => Ok(Table { vars: by + aggregate_vars(aggs), rows: r }),
                    None => Err(dictionary_full_text()),
                },
                after,
            )
        },
    }
}

/// Groups have different keys, and every row belongs to one.
pub proof fn law_groups_cover(by: Seq<Seq<char>>, t: Table)
    ensures
        group_keys(by, t).no_duplicates(),
        forall|i: int|
            0 <= i < t.rows.len() ==> group_keys(by, t).contains(
                aligned(by, t.vars, #[trigger] t.rows[i]),
            ),
{
    let keys = aligned_rows(by, t);
    law_first_rows(keys);
    assert forall|i: int| 0 <= i < t.rows.len() implies group_keys(by, t).contains(
        aligned(by, t.vars, #[trigger] t.rows[i]),
    ) by {
        assert(keys[i] == aligned(by, t.vars, t.rows[i]));
        assert(keys.contains(keys[i]));
        if by.len() == 0 {
            assert(keys[i] =~= Seq::<u32>::empty());
            assert(group_keys(by, t)[0] == keys[i]);
        }
    }
}

// --- Evaluation --------------------------------------------------------------------------

/// The identifiers that a variable is bound to.
fn collect_ids(t: &RowBlock, vars: &Vec<String>, name: &str, distinct: bool) -> (ids: Vec<u32>)
    requires
        t.wf(),
        t.width() == vars@.len(),
    ensures
        ids@ == chosen_ids(bound_ids(texts(vars@), t@, name@), distinct),
{
    let ghost vs = texts(vars@);
    let ghost rows = t@;
    let c: usize = column_of(vars, name);
    let width: usize = vars.len();
    let n: usize = t.n_rows();
    let mut all: Vec<u32> = Vec::new();
    let mut once: IdSet = IdSet::new();
    let mut i: usize = 0;
    proof {
        assert(rows.take(0) =~= Seq::<Seq<u32>>::empty());
        assert(once.list@ =~= first_ids(all@));
    }
    while i < n
        invariant
            t.wf(),
            t.width() == width,
            width == vs.len(),
            rows == t@,
            n == rows.len(),
            i <= n,
            c == place(vs, name@),
            all@ == bound_ids(vs, rows.take(i as int), name@),
            once.wf(),
            distinct ==> once.list@ == first_ids(all@),
        decreases n - i,
    {
        let row: &[u32] = t.row(i);
        proof {
            assert(rows.take(i + 1).drop_last() =~= rows.take(i as int));
        }
        if c < width {
            let id: u32 = row[c];
            if id != NULL_ID {
                let ghost before = all@;
                all.push(id);
                if distinct {
                    let _new: bool = once.add_id(id);
                    proof {
                        law_first_ids(before);
                        assert(all@.drop_last() =~= before);
                    }
                }
            }
        }
        i += 1;
    }
    assert(rows.take(i as int) =~= rows);
    if distinct {
        once.list
    } else {
        all
    }
}

/// The numbers among the values of an expression.
fn collect_numbers<F: Fn(NumberCall) -> NumberReply>(
    t: &RowBlock,
    vars: &Vec<String>,
    e: &Expr,
    dict: &Dictionary,
    numbers: &F,
) -> (all: Vec<u64>)
    requires
        t.wf(),
        t.width() == vars@.len(),
        dict.wf(),
        numbers_ok(*numbers),
    ensures
        all@ == row_numbers(replies(*numbers), dict.keys(), texts(vars@), t@, e.view()),
{
    let ghost vs = texts(vars@);
    let ghost rows = t@;
    let ghost num = replies(*numbers);
    let n: usize = t.n_rows();
    let mut all: Vec<u64> = Vec::new();
    let mut i: usize = 0;
    assert(rows.take(0) =~= Seq::<Seq<u32>>::empty());
    while i < n
        invariant
            t.wf(),
            t.width() == vars@.len(),
            dict.wf(),
            numbers_ok(*numbers),
            num == replies(*numbers),
            vs == texts(vars@),
            rows == t@,
            n == rows.len(),
            i <= n,
            all@ == row_numbers(num, dict.keys(), vs, rows.take(i as int), e.view()),
        decreases n - i,
    {
        let row: &[u32] = t.row(i);
        assert(rows.take(i + 1).drop_last() =~= rows.take(i as int));
        if let Some(v) = eval(e, row, vars, dict, numbers) {
            if let Some(x) = as_num(&v) {
                all.push(x);
            }
        }
        i += 1;
    }
    assert(rows.take(i as int) =~= rows);
    all
}

proof fn lemma_push_number(s: Seq<u64>, n: u64, x: u64)
    ensures
        has_number(s.push(n), x) <==> has_number(s, x) || plain_bits(n) == plain_bits(x),
{
    let t = s.push(n);
    if has_number(s, x) {
        let i = choose|i: int| 0 <= i < s.len() && plain_bits(#[trigger] s[i]) == plain_bits(x);
        assert(t[i] == s[i]);
    }
    if plain_bits(n) == plain_bits(x) {
        assert(t[s.len() as int] == n);
    }
    if has_number(t, x) {
        let i = choose|i: int| 0 <= i < t.len() && plain_bits(#[trigger] t[i]) == plain_bits(x);
        if i < s.len() {
            assert(s[i] == t[i]);
        }
    }
}

/// Each number once.
fn drop_repeated(all: &Vec<u64>) -> (some: Vec<u64>)
    ensures
        some@ == first_numbers(all@),
{
    let ghost s = all@;
    let mut seen: FxHashMap<u64, bool> = fx_new();
    let mut some: Vec<u64> = Vec::new();
    let mut i: usize = 0;
    proof {
        assert(s.take(0) =~= Seq::<u64>::empty());
    }
    while i < all.len()
        invariant
            s == all@,
            i <= s.len(),
            some@ == first_numbers(s.take(i as int)),
            forall|x: u64| #[trigger]
                has_number(s.take(i as int), x) <==> seen@.contains_key(plain_bits(x)),
        decreases s.len() - i,
    {
        let n: u64 = all[i];
        let zero: bool = crate::sparql::numbers::bits_magnitude(n) == 0;
        let bits: u64 = if zero {
            0
        } else {
            n
        };
        let ghost before = s.take(i as int);
        proof {
            assert(s.take(i + 1) =~= before.push(n));
            assert(s.take(i + 1).drop_last() =~= before);
            assert(bits == plain_bits(n));
            assert(has_number(before, n) <==> seen@.contains_key(plain_bits(n)));
        }
        if fx_get(&seen, bits).is_none() {
            some.push(n);
            fx_insert(&mut seen, bits, true);
        }
        proof {
            assert forall|x: u64| #[trigger]
                has_number(s.take(i + 1), x) <==> seen@.contains_key(plain_bits(x)) by {
                lemma_push_number(before, n, x);
                assert(has_number(before, x) <==> {
                    let old_key = plain_bits(x);
                    seen@.contains_key(old_key) && (old_key != bits || has_number(before, n))
                });
            }
        }
        i += 1;
    }
    assert(s.take(i as int) =~= s);
    some
}

/// The sum or the mean of a list that is not empty.
fn add_up<F: Fn(NumberCall) -> NumberReply>(s: &Vec<u64>, mean: bool, numbers: &F) -> (r: Option<u64>)
    requires
        s@.len() > 0,
        numbers_ok(*numbers),
    ensures
        r == total_of(replies(*numbers), s@, mean),
{
    let ghost num = replies(*numbers);
    let mut sum: u64 = s[0];
    let mut i: usize = 1;
    while i < s.len()
        invariant
            numbers_ok(*numbers),
            num == replies(*numbers),
            1 <= i <= s@.len(),
            sum_of(num, s@.take(i as int)) == Some(sum),
        decreases s@.len() - i,
    {
        let next: Option<u64> = ask_number(numbers, NumberCall::Plus(sum, s[i]));
        proof {
            assert(s@.take(i + 1).drop_last() =~= s@.take(i as int));
            assert(sum_of(num, s@.take(i + 1)) == next);
        }
        match next {
            Some(x) => {
                sum = x;
            },
            None => {
                proof {
                    lemma_sum_stuck(num, s@, i + 1);
                }
                return None;
            },
        }
        i += 1;
    }
    assert(s@.take(i as int) =~= s@);
    if mean {
        match ask_number(numbers, NumberCall::Count(s.len() as u64)) {
            Some(n) => ask_number(numbers, NumberCall::Divide(sum, n)),
            None => None,
        }
    } else {
        Some(sum)
    }
}

proof fn lemma_sum_stuck(num: Replies, s: Seq<u64>, i: int)
    requires
        0 < i <= s.len(),
        sum_of(num, s.take(i)) is None,
    ensures
        sum_of(num, s) is None,
    decreases s.len() - i,
{
    if i < s.len() {
        assert(s.take(i + 1).drop_last() =~= s.take(i));
        lemma_sum_stuck(num, s, i + 1);
    } else {
        assert(s.take(i) =~= s);
    }
}

/// The first of the identifiers that come earliest (or latest).
fn pick_extreme<F: Fn(NumberCall) -> NumberReply>(
    ids: &Vec<u32>,
    latest: bool,
    dict: &Dictionary,
    numbers: &F,
) -> (r: u32)
    requires
        ids@.len() > 0,
        dict.wf(),
        numbers_ok(*numbers),
    ensures
        r == extreme_id(
            replies(*numbers),
            dict.keys(),
            ids@,
            if latest {
                Side::After
            } else {
                Side::Before
            },
        ),
{
    let ghost num = replies(*numbers);
    let ghost keys = dict.keys();
    let ghost side = if latest {
        Side::After
    } else {
        Side::Before
    };
    let mut best: u32 = ids[0];
    let mut best_key: OrderKey = order_key(term_to_value(numbers, dict, best));
    let mut i: usize = 1;
    while i < ids.len()
        invariant
            dict.wf(),
            numbers_ok(*numbers),
            num == replies(*numbers),
            keys == dict.keys(),
            side == (if latest {
                Side::After
            } else {
                Side::Before
            }),
            1 <= i <= ids@.len(),
            best == extreme_id(num, keys, ids@.take(i as int), side),
            best_key@ == key_of(id_value(num, keys, best)),
        decreases ids@.len() - i,
    {
        let id: u32 = ids[i];
        let key: OrderKey = order_key(term_to_value(numbers, dict, id));
        assert(ids@.take(i + 1).drop_last() =~= ids@.take(i as int));
        let better: bool = match compare_keys(&key, &best_key) {
            Side::Before => !latest,
            Side::Same => false,
            Side::After => latest,
        };
        if better {
            best = id;
            best_key = key;
        }
        i += 1;
    }
    assert(ids@.take(i as int) =~= ids@);
    best
}

/// The texts of the values, with a separator between them.
fn concat_ids<F: Fn(NumberCall) -> NumberReply>(
    ids: &Vec<u32>,
    sep: &str,
    dict: &Dictionary,
    numbers: &F,
) -> (r: String)
    requires
        dict.wf(),
        numbers_ok(*numbers),
    ensures
        r@ == concatenated(replies(*numbers), dict.keys(), ids@, sep@),
{
    let ghost num = replies(*numbers);
    let ghost keys = dict.keys();
    let mut out: String = String::new();
    let mut i: usize = 0;
    assert(out@ =~= Seq::<char>::empty());
    while i < ids.len()
        invariant
            dict.wf(),
            numbers_ok(*numbers),
            num == replies(*numbers),
            keys == dict.keys(),
            i <= ids@.len(),
            out@ == concatenated(num, keys, ids@.take(i as int), sep@),
        decreases ids@.len() - i,
    {
        let id: u32 = ids[i];
        let ghost before = out@;
        assert(ids@.take(i + 1).drop_last() =~= ids@.take(i as int));
        if i > 0 {
            out.push_str(sep);
        }
        if let Some(v) = term_to_value(numbers, dict, id) {
            let text: String = value_text(numbers, v);
            out.push_str(text.as_str());
        }
        proof {
            let text = id_text(num, keys, id);
            if i > 0 {
                assert(out@ =~= before + sep@ + text);
            } else {
                assert(out@ =~= text);
            }
        }
        i += 1;
    }
    assert(ids@.take(i as int) =~= ids@);
    out
}

/// What an aggregate gives over a group, as an identifier.
fn compute<F: Fn(NumberCall) -> NumberReply>(
    t: &RowBlock,
    vars: &Vec<String>,
    a: &Aggregate,
    dict: &mut Dictionary,
    numbers: &F,
) -> (id: Option<u32>)
    requires
        t.wf(),
        t.width() == vars@.len(),
        old(dict).wf(),
        numbers_ok(*numbers),
        aggregate_problem(a@) is None,
    ensures
        final(dict).wf(),
        (id, final(dict).keys()) == computed_id(
            old(dict).keys(),
            computed(replies(*numbers), old(dict).keys(), texts(vars@), t@, a@),
        ),
{
    let ids: Vec<u32> = match &a.argument {
        Some(Expr::Variable(n)) => collect_ids(t, vars, n.as_str(), a.distinct),
        _ => {
            let none: Vec<u32> = Vec::new();
            assert(none@ =~= Seq::<u32>::empty());
            none
        },
    };
    match &a.function {
        AggregateFn::Count => {
            let n: usize = match &a.argument {
                None => {
                    if a.distinct {
                        let mut once: RowBlock = t.clone();
                        once.dedup_preserving_order();
                        once.n_rows()
                    } else {
                        t.n_rows()
                    }
                },
                Some(_) => ids.len(),
            };
            let text: String = decimal_text(n as u64);
            intern(
                dict,
                text.as_str(),
                TermType::literal_datatype(owned("http://www.w3.org/2001/XMLSchema#integer")),
            )
        },
        AggregateFn::Sum | AggregateFn::Avg => {
            let mean: bool = match &a.function {
                AggregateFn::Avg => true,
                _ => false,
            };
            match &a.argument {
                Some(e) => {
                    let all: Vec<u64> = collect_numbers(t, vars, e, dict, numbers);
                    let some: Vec<u64> = if a.distinct {
                        drop_repeated(&all)
                    } else {
                        all
                    };
                    if some.len() == 0 {
                        let text: String = decimal_text(0);
                        return intern(
                            dict,
                            text.as_str(),
                            TermType::literal_datatype(
                                owned("http://www.w3.org/2001/XMLSchema#integer"),
                            ),
                        );
                    }
                    match add_up(&some, mean, numbers) {
                        Some(x) => {
                            let text: String = ask_text(numbers, x);
                            intern(
                                dict,
                                text.as_str(),
                                TermType::literal_datatype(
                                    owned("http://www.w3.org/2001/XMLSchema#double"),
                                ),
                            )
                        },
                        None => Some(NULL_ID),
                    }
                },
                None => Some(NULL_ID),
            }
        },
        AggregateFn::Min => {
            if ids.len() == 0 {
                Some(NULL_ID)
            } else {
                Some(pick_extreme(&ids, false, dict, numbers))
            }
        },
        AggregateFn::Max => {
            if ids.len() == 0 {
                Some(NULL_ID)
            } else {
                Some(pick_extreme(&ids, true, dict, numbers))
            }
        },
        AggregateFn::Sample => {
            if ids.len() == 0 {
                Some(NULL_ID)
            } else {
                Some(ids[0])
            }
        },
        AggregateFn::Concat(sep) => {
            let text: String = concat_ids(&ids, sep.as_str(), dict, numbers);
            intern(dict, text.as_str(), TermType::literal_plain())
        },
        AggregateFn::Unsupported(_) => Some(NULL_ID),
    }
}

fn name_aggregate(f: &AggregateFn) -> (r: String)
    ensures
        r@ == aggregate_name(f@),
{
    match f {
        AggregateFn::Count => owned("COUNT"),
        AggregateFn::Sum => owned("SUM"),
        AggregateFn::Avg => owned("AVG"),
        AggregateFn::Min => owned("MIN"),
        AggregateFn::Max => owned("MAX"),
        AggregateFn::Sample => owned("SAMPLE"),
        AggregateFn::Concat(_) => owned("GROUP_CONCAT"),
        AggregateFn::Unsupported(n) => n.clone(),
    }
}

fn find_problem(a: &Aggregate) -> (r: Option<String>)
    ensures
        match r {
            Some(e) => aggregate_problem(a@) == Some(e@),
            None => aggregate_problem(a@) is None,
        },
{
    let bare: bool = match &a.argument {
        Some(Expr::Variable(_)) => true,
        _ => false,
    };
    match &a.function {
        AggregateFn::Unsupported(n) => {
            let mut e: String = owned("Unsupported aggregate: ");
            e.push_str(n.as_str());
            assert(e@ =~= "Unsupported aggregate: "@ + n@);
            Some(e)
        },
        AggregateFn::Sum | AggregateFn::Avg => {
            if a.argument.is_some() {
                None
            } else {
                let mut e: String = name_aggregate(&a.function);
                e.push_str(" needs an argument");
                assert(e@ =~= aggregate_name(a.function@) + " needs an argument"@);
                Some(e)
            }
        },
        AggregateFn::Count => {
            if a.argument.is_none() || bare {
                None
            } else {
                Some(owned("COUNT needs a bare variable"))
            }
        },
        _ => {
            if bare {
                None
            } else {
                let mut e: String = name_aggregate(&a.function);
                e.push_str(" needs a bare variable");
                assert(e@ =~= aggregate_name(a.function@) + " needs a bare variable"@);
                Some(e)
            }
        },
    }
}

/// The first problem of a list of aggregates.
fn check_aggregates(aggs: &Vec<Aggregate>) -> (r: Option<String>)
    ensures
        match r {
            Some(e) => first_problem(aggregates_view(aggs@), 0) == Some(e@),
            None => first_problem(aggregates_view(aggs@), 0) is None && forall|k: int|
                0 <= k < aggs@.len() ==> aggregate_problem((#[trigger] aggs@[k])@) is None,
        },
{
    let ghost av = aggregates_view(aggs@);
    let mut i: usize = 0;
    while i < aggs.len()
        invariant
            av == aggregates_view(aggs@),
            i <= aggs@.len(),
            first_problem(av, 0) == first_problem(av, i as int),
            forall|k: int| 0 <= k < i ==> aggregate_problem((#[trigger] aggs@[k])@) is None,
        decreases aggs@.len() - i,
    {
        assert(av[i as int] == aggs@[i as int]@);
        if let Some(e) = find_problem(&aggs[i]) {
            return Some(e);
        }
        i += 1;
    }
    None
}

proof fn lemma_rows_under_len(keys: Seq<Seq<u32>>, rows: Seq<Seq<u32>>, key: Seq<u32>)
    ensures
        rows_under(keys, rows, key).len() <= rows.len(),
    decreases rows.len(),
{
    if rows.len() > 0 && keys.len() > 0 {
        lemma_rows_under_len(keys.drop_last(), rows.drop_last(), key);
    }
}

/// The rows of every group.
fn split_rows(t: &RowBlock, keys: &RowBlock, groups: &RowBlock) -> (parts: Vec<RowBlock>)
    requires
        t.wf(),
        keys.wf(),
        groups.wf(),
        keys.width() == groups.width(),
        keys@.len() == t@.len(),
        groups@.no_duplicates(),
        forall|i: int| 0 <= i < keys@.len() ==> groups@.contains(#[trigger] keys@[i]),
    ensures
        parts@.len() == groups@.len(),
        forall|g: int|
            #![trigger parts@[g]]
            0 <= g < groups@.len() ==> parts@[g].wf() && parts@[g].width() == t.width() && parts@[g]@
                == rows_under(keys@, t@, groups@[g]),
{
    let mut map: FxHashMap<Vec<u32>, usize> = rows_new();
    let mut parts: Vec<RowBlock> = Vec::new();
    let n_groups: usize = groups.n_rows();
    let width: usize = t.n_vars();
    let mut g: usize = 0;
    proof {
        groups.lemma_wf();
        keys.lemma_wf();
        t.lemma_wf();
    }
    let ghost ks = keys@;
    let ghost ts = t@;
    let ghost gs = groups@;
    while g < n_groups
        invariant
            groups.wf(),
            gs == groups@,
            gs.no_duplicates(),
            n_groups == gs.len(),
            width == t.width(),
            g <= n_groups,
            parts@.len() == g,
            forall|k: int|
                #![trigger parts@[k]]
                0 <= k < g ==> parts@[k].wf() && parts@[k].width() == width && parts@[k]@.len() == 0,
            forall|k: int| 0 <= k < g ==> row_map(map).contains_key(#[trigger] gs[k]) && row_map(map)[gs[k]]
                == k,
        decreases n_groups - g,
    {
        let key: Vec<u32> = slice_to_vec(groups.row(g));
        let ghost before = row_map(map);
        assert(key@ == gs[g as int]);
        rows_insert(&mut map, key, g);
        parts.push(RowBlock::new(width));
        proof {
            assert forall|k: int| 0 <= k < g + 1 implies row_map(map).contains_key(#[trigger] gs[k])
                && row_map(map)[gs[k]] == k by {
                if k < g {
                    assert(gs[k] != gs[g as int]);
                }
            }
        }
        g += 1;
    }
    let n: usize = t.n_rows();
    let mut i: usize = 0;
    proof {
        assert(ks.take(0) =~= Seq::<Seq<u32>>::empty());
        assert(ts.take(0) =~= Seq::<Seq<u32>>::empty());
        assert forall|g: int|
            #![trigger parts@[g]]
            0 <= g < n_groups implies parts@[g].wf() && parts@[g].width() == width && parts@[g]@
            == rows_under(ks.take(0), ts.take(0), gs[g]) by {
            assert(parts@[g]@ =~= Seq::<Seq<u32>>::empty());
        }
    }
    while i < n
        invariant
            t.wf(),
            keys.wf(),
            width == t.width(),
            ks == keys@,
            ts == t@,
            gs == groups@,
            gs.no_duplicates(),
            n_groups == gs.len(),
            n == ts.len(),
            ks.len() == n,
            i <= n,
            forall|i: int| 0 <= i < ks.len() ==> gs.contains(#[trigger] ks[i]),
            forall|k: int| 0 <= k < n_groups ==> row_map(map).contains_key(#[trigger] gs[k])
                && row_map(map)[gs[k]] == k,
            parts@.len() == n_groups,
            forall|g: int|
                #![trigger parts@[g]]
                0 <= g < n_groups ==> parts@[g].wf() && parts@[g].width() == width && parts@[g]@
                    == rows_under(ks.take(i as int), ts.take(i as int), gs[g]),
        decreases n - i,
    {
        let ghost k0 = ks.take(i as int);
        let ghost t0 = ts.take(i as int);
        let ghost at = choose|k: int| 0 <= k < gs.len() && gs[k] == ks[i as int];
        proof {
            assert(gs.contains(ks[i as int]));
            assert(gs[at] == ks[i as int]);
            assert(ks.take(i + 1).drop_last() =~= k0);
            assert(ts.take(i + 1).drop_last() =~= t0);
            lemma_rows_under_len(k0, t0, gs[at]);
        }
        if let Some(b) = rows_get(&map, keys.row(i)) {
            assert(b == at);
            let ghost before = parts@;
            let part: &mut RowBlock = &mut parts[b];
            part.push_row(t.row(i));
            proof {
                assert forall|g: int|
                    #![trigger parts@[g]]
                    0 <= g < n_groups implies parts@[g].wf() && parts@[g].width() == width
                    && parts@[g]@ == rows_under(ks.take(i + 1), ts.take(i + 1), gs[g]) by {
                    assert(before[g].wf());
                    if g != at {
                        assert(parts@[g] == before[g]);
                        assert(gs[g] != gs[at]);
                    }
                }
            }
        }
        i += 1;
    }
    assert(ks.take(i as int) =~= ks);
    assert(ts.take(i as int) =~= ts);
    parts
}

proof fn lemma_cells_stuck(
    num: Replies,
    keys: Seq<Seq<char>>,
    vars: Seq<Seq<char>>,
    rows: Seq<Seq<u32>>,
    aggs: Seq<AggregateView>,
    i: int,
    m: int,
)
    requires
        0 <= i <= m,
        group_cells(num, keys, vars, rows, aggs, i).0 is None,
    ensures
        group_cells(num, keys, vars, rows, aggs, m) == group_cells(num, keys, vars, rows, aggs, i),
    decreases m - i,
{
    if i < m {
        lemma_cells_stuck(num, keys, vars, rows, aggs, i, m - 1);
    }
}

proof fn lemma_group_rows_stuck(
    num: Replies,
    keys: Seq<Seq<char>>,
    by: Seq<Seq<char>>,
    aggs: Seq<AggregateView>,
    t: Table,
    i: int,
    n: int,
)
    requires
        0 <= i <= n,
        group_rows(num, keys, by, aggs, t, i).0 is None,
    ensures
        group_rows(num, keys, by, aggs, t, n) == group_rows(num, keys, by, aggs, t, i),
    decreases n - i,
{
    if i < n {
        lemma_group_rows_stuck(num, keys, by, aggs, t, i, n - 1);
    }
}

/// The aggregates of one group.
fn compute_cells<F: Fn(NumberCall) -> NumberReply>(
    part: &RowBlock,
    vars: &Vec<String>,
    aggs: &Vec<Aggregate>,
    dict: &mut Dictionary,
    numbers: &F,
) -> (cells: Option<Vec<u32>>)
    requires
        part.wf(),
        part.width() == vars@.len(),
        old(dict).wf(),
        numbers_ok(*numbers),
        forall|k: int| 0 <= k < aggs@.len() ==> aggregate_problem((#[trigger] aggs@[k])@) is None,
    ensures
        final(dict).wf(),
        ({
            let (want, after) = group_cells(
                replies(*numbers),
                old(dict).keys(),
                texts(vars@),
                part@,
                aggregates_view(aggs@),
                aggs@.len() as int,
            );
            &&& final(dict).keys() == after
            &&& match cells {
                Some(c) => want == Some(c@) && c@.len() == aggs@.len(),
                None => want is None,
            }
        }),
{
    let ghost num = replies(*numbers);
    let ghost keys = dict.keys();
    let ghost vs = texts(vars@);
    let ghost av = aggregates_view(aggs@);
    let n: usize = aggs.len();
    let mut cells: Vec<u32> = Vec::new();
    let mut k: usize = 0;
    assert(cells@ =~= Seq::<u32>::empty());
    while k < n
        invariant
            part.wf(),
            part.width() == vars@.len(),
            dict.wf(),
            numbers_ok(*numbers),
            forall|k: int|
                0 <= k < aggs@.len() ==> aggregate_problem((#[trigger] aggs@[k])@) is None,
            num == replies(*numbers),
            keys == old(dict).keys(),
            vs == texts(vars@),
            av == aggregates_view(aggs@),
            n == aggs@.len(),
            k <= n,
            cells@.len() == k,
            group_cells(num, keys, vs, part@, av, k as int) == (Some(cells@), dict.keys()),
        decreases n - k,
    {
        assert(av[k as int] == aggs@[k as int]@);
        match compute(part, vars, &aggs[k], dict, numbers) {
            Some(id) => {
                cells.push(id);
            },
            None => {
                proof {
                    assert(group_cells(num, keys, vs, part@, av, k + 1) == (
                        None::<Seq<u32>>,
                        dict.keys(),
                    ));
                    lemma_cells_stuck(num, keys, vs, part@, av, k + 1, n as int);
                }
                return None;
            },
        }
        k += 1;
    }
    Some(cells)
}

/// Groups a table and computes its aggregates.
pub fn group_table<F: Fn(NumberCall) -> NumberReply>(
    t: &Solutions,
    by: &Vec<String>,
    aggs: &Vec<Aggregate>,
    dict: &mut Dictionary,
    numbers: &F,
) -> (res: Result<Solutions, String>)
    requires
        t.wf(),
        old(dict).wf(),
        numbers_ok(*numbers),
    ensures
        final(dict).wf(),
        (outcome(res), final(dict).keys()) == group_outcome(
            replies(*numbers),
            old(dict).keys(),
            texts(by@),
            aggregates_view(aggs@),
            t@,
        ),
        res is Ok ==> (res->Ok_0).wf(),
{
    let ghost num = replies(*numbers);
    let ghost keys = dict.keys();
    let ghost bv = texts(by@);
    let ghost av = aggregates_view(aggs@);
    let ghost tv = t@;
    if let Some(e) = check_aggregates(aggs) {
        return Err(e);
    }
    let mut row_keys: RowBlock = RowBlock::new(by.len());
    proof {
        t.rows.lemma_wf();
    }
    let _fits: bool = append_aligned(&mut row_keys, by, t, usize::MAX);
    assert(row_keys@ =~= aligned_rows(bv, tv));
    let mut groups: RowBlock = row_keys.clone();
    if by.len() == 0 {
        groups = RowBlock::new(0);
        let one: [u32; 0] = [];
        assert(one@ =~= Seq::<u32>::empty());
        groups.push_row(&one);
        assert(groups@ =~= seq![Seq::<u32>::empty()]);
    } else {
        groups.dedup_preserving_order();
    }
    proof {
        law_groups_cover(bv, tv);
        assert(groups@ == group_keys(bv, tv));
        assert forall|i: int| 0 <= i < row_keys@.len() implies groups@.contains(
            #[trigger] row_keys@[i],
        ) by {
            assert(row_keys@[i] == aligned(bv, tv.vars, tv.rows[i]));
        }
    }
    let parts: Vec<RowBlock> = split_rows(&t.rows, &row_keys, &groups);
    let mut vars: Vec<String> = copy_vars(by);
    let mut k: usize = 0;
    assert(bv + aggregate_vars(av).take(0) =~= bv);
    while k < aggs.len()
        invariant
            av == aggregates_view(aggs@),
            k <= aggs@.len(),
            vars@.len() == by@.len() + k,
            texts(vars@) == bv + aggregate_vars(av).take(k as int),
        decreases aggs@.len() - k,
    {
        let ghost before = texts(vars@);
        vars.push(aggs[k].variable.clone());
        proof {
            assert(texts(vars@) =~= before.push(aggs@[k as int].variable@));
            assert(av[k as int] == aggs@[k as int]@);
            assert(aggregate_vars(av).take(k + 1) =~= aggregate_vars(av).take(k as int).push(
                av[k as int].variable,
            ));
            assert(texts(vars@) =~= bv + aggregate_vars(av).take(k + 1));
        }
        k += 1;
    }
    assert(aggregate_vars(av).take(k as int) =~= aggregate_vars(av));
    let mut out: RowBlock = RowBlock::new(vars.len());
    let n: usize = groups.n_rows();
    let mut g: usize = 0;
    assert(out@ =~= Seq::<Seq<u32>>::empty());
    while g < n
        invariant
            t.wf(),
            tv == t@,
            groups.wf(),
            groups.width() == by@.len(),
            groups@ == group_keys(bv, tv),
            row_keys@ == aligned_rows(bv, tv),
            n == groups@.len(),
            parts@.len() == n,
            forall|g: int|
                #![trigger parts@[g]]
                0 <= g < n ==> parts@[g].wf() && parts@[g].width() == t.rows.width() && parts@[g]@
                    == rows_under(row_keys@, t.rows@, groups@[g]),
            forall|k: int|
                0 <= k < aggs@.len() ==> aggregate_problem((#[trigger] aggs@[k])@) is None,
            numbers_ok(*numbers),
            num == replies(*numbers),
            keys == old(dict).keys(),
            av == aggregates_view(aggs@),
            first_problem(av, 0) is None,
            bv == texts(by@),
            vars@.len() == by@.len() + aggs@.len(),
            dict.wf(),
            g <= n,
            out.wf(),
            out.width() == vars@.len(),
            out@.len() == g,
            group_rows(num, keys, bv, av, tv, g as int) == (Some(out@), dict.keys()),
        decreases n - g,
    {
        let ghost key = groups@[g as int];
        assert(parts@[g as int]@ == group_members(bv, tv, key));
        match compute_cells(&parts[g], &t.vars, aggs, dict, numbers) {
            Some(cells) => {
                let ghost before = out@;
                out.push_row_concat(groups.row(g), cells.as_slice());
                assert(out@ =~= before.push(key + cells@));
            },
            None => {
                proof {
                    assert(group_rows(num, keys, bv, av, tv, g + 1) == (
                        None::<Seq<Seq<u32>>>,
                        dict.keys(),
                    ));
                    lemma_group_rows_stuck(num, keys, bv, av, tv, g + 1, n as int);
                }
                return Err(owned("the dictionary is full"));
            },
        }
        g += 1;
    }
    Ok(Solutions { vars, rows: out })
}

} // verus!
