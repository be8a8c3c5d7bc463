//! Tables of solutions: joins, unions, projections, order.

use crate::fxmap::{row_map, rows_get, rows_insert, rows_new};
use crate::hypertrie::executor::place;
use crate::hypertrie::rows::{padded, picked, RowBlock};
use crate::hypertrie::NULL_ID;
use crate::sparql::algebra::texts;
use crate::sparql::expr::column_of;
use crate::text::{decimal, decimal_text};
use rustc_hash::FxHashMap;
use vstd::prelude::*;
use vstd::slice::slice_to_vec;

verus! {

/// Named columns and rows of identifiers.
#[verifier::ext_equal]
pub struct Table {
    pub vars: Seq<Seq<char>>,
    pub rows: Seq<Seq<u32>>,
}

/// A table of solutions.
#[derive(Debug)]
pub struct Solutions {
    pub vars: Vec<String>,
    pub rows: RowBlock,
}

impl View for Solutions {
    type V = Table;

    open spec fn view(&self) -> Table {
        Table { vars: texts(self.vars@), rows: self.rows@ }
    }
}

impl Solutions {
    pub open spec fn wf(&self) -> bool {
        self.rows.wf() && self.rows.width() == self.vars@.len()
    }
}

/// Every row has a value for every column.
pub open spec fn table_ok(t: Table) -> bool {
    forall|i: int| 0 <= i < t.rows.len() ==> (#[trigger] t.rows[i]).len() == t.vars.len()
}

/// The text of the error for an operation with too many rows.
pub open spec fn op_too_large_text(cap: nat) -> Seq<char> {
    "result exceeds "@ + decimal(cap)
        + " rows (join/union/path materialization); raise TRILLIAN_MAX_ROWS to allow"@
}

pub(crate) fn op_too_large(cap: usize) -> (s: String)
    ensures
        s@ == op_too_large_text(cap as nat),
{
    let mut s: String = String::new();
    s.push_str("result exceeds ");
    let n: String = decimal_text(cap as u64);
    s.push_str(n.as_str());
    s.push_str(" rows (join/union/path materialization); raise TRILLIAN_MAX_ROWS to allow");
    assert(s@ =~= op_too_large_text(cap as nat));
    s
}

/// A table, or an error text.
pub type Outcome = Result<Table, Seq<char>>;

/// What an optional table stands for.
pub open spec fn outcome(r: Result<Solutions, String>) -> Outcome {
    match r {
        Ok(s) => Ok(s@),
        Err(e) => Err(e@),
    }
}

/// A table with at most `cap` rows, or the error.
pub open spec fn within(t: Table, cap: usize) -> Outcome {
    if t.rows.len() <= cap {
        Ok(t)
    } else {
        Err(op_too_large_text(cap as nat))
    }
}

// --- Joins -------------------------------------------------------------------------

/// The columns of the right side that the left side has too, with their places
/// on both sides.
pub open spec fn shared_cols(lv: Seq<Seq<char>>, rv: Seq<Seq<char>>) -> Seq<(usize, usize)>
    decreases rv.len(),
{
    if rv.len() == 0 {
        Seq::empty()
    } else {
        let before = shared_cols(lv, rv.drop_last());
        if place(lv, rv.last()) < lv.len() {
            before.push((place(lv, rv.last()) as usize, (rv.len() - 1) as usize))
        } else {
            before
        }
    }
}

/// The columns of the right side that the left side has not.
pub open spec fn new_cols(lv: Seq<Seq<char>>, rv: Seq<Seq<char>>) -> Seq<usize>
    decreases rv.len(),
{
    if rv.len() == 0 {
        Seq::empty()
    } else {
        let before = new_cols(lv, rv.drop_last());
        if place(lv, rv.last()) < lv.len() {
            before
        } else {
            before.push((rv.len() - 1) as usize)
        }
    }
}

/// The values of the shared columns on the left.
pub open spec fn left_key(l: Seq<u32>, shared: Seq<(usize, usize)>) -> Seq<u32> {
    Seq::new(shared.len(), |i: int| l[shared[i].0 as int])
}

/// The values of the shared columns on the right.
pub open spec fn right_key(r: Seq<u32>, shared: Seq<(usize, usize)>) -> Seq<u32> {
    Seq::new(shared.len(), |i: int| r[shared[i].1 as int])
}

/// The columns of a join: those of the left, then the new ones of the right.
pub open spec fn join_vars(lv: Seq<Seq<char>>, rv: Seq<Seq<char>>) -> Seq<Seq<char>> {
    lv + Seq::new(new_cols(lv, rv).len(), |i: int| rv[new_cols(lv, rv)[i] as int])
}

/// The condition on a joined row.
pub type Condition = spec_fn(Seq<u32>) -> bool;

/// How a left row continues on the right side.
pub open spec fn matches_of(
    lv: Seq<Seq<char>>,
    rv: Seq<Seq<char>>,
    l: Seq<u32>,
    right: Seq<Seq<u32>>,
    cond: Condition,
) -> Seq<Seq<u32>>
    decreases right.len(),
{
    if right.len() == 0 {
        Seq::empty()
    } else {
        let before = matches_of(lv, rv, l, right.drop_last(), cond);
        let r = right.last();
        let row = l + picked(r, new_cols(lv, rv));
        if left_key(l, shared_cols(lv, rv)) == right_key(r, shared_cols(lv, rv)) && cond(row) {
            before.push(row)
        } else {
            before
        }
    }
}

/// What becomes of a left row: its continuations, or the row with the new
/// columns unbound if it has none and `outer` is set.
pub open spec fn joined_row(
    lv: Seq<Seq<char>>,
    rv: Seq<Seq<char>>,
    l: Seq<u32>,
    right: Seq<Seq<u32>>,
    cond: Condition,
    outer: bool,
) -> Seq<Seq<u32>> {
    let found = matches_of(lv, rv, l, right, cond);
    if outer && found.len() == 0 {
        seq![padded(l, NULL_ID, join_vars(lv, rv).len())]
    } else {
        found
    }
}

pub open spec fn joined_rows(
    lv: Seq<Seq<char>>,
    rv: Seq<Seq<char>>,
    left: Seq<Seq<u32>>,
    right: Seq<Seq<u32>>,
    cond: Condition,
    outer: bool,
) -> Seq<Seq<u32>>
    decreases left.len(),
{
    if left.len() == 0 {
        Seq::empty()
    } else {
        joined_rows(lv, rv, left.drop_last(), right, cond, outer) + joined_row(
            lv,
            rv,
            left.last(),
            right,
            cond,
            outer,
        )
    }
}

/// The join of two tables.
pub open spec fn join_tables(l: Table, r: Table, cond: Condition, outer: bool) -> Table {
    Table {
        vars: join_vars(l.vars, r.vars),
        rows: joined_rows(l.vars, r.vars, l.rows, r.rows, cond, outer),
    }
}

/// A left join keeps every left row: each begins at least one row of the result.
pub proof fn law_left_join_keeps_rows(l: Table, r: Table, cond: Condition, i: int)
    requires
        0 <= i < l.rows.len(),
        table_ok(l),
    ensures
        exists|k: int|
            0 <= k < join_tables(l, r, cond, true).rows.len() && (#[trigger] join_tables(
                l,
                r,
                cond,
                true,
            ).rows[k]).take(l.vars.len() as int) == l.rows[i],
{
    lemma_left_join_from(l.vars, r.vars, l.rows, r.rows, cond, i);
    let rows = joined_rows(l.vars, r.vars, l.rows, r.rows, cond, true);
    let k = choose|k: int|
        0 <= k < rows.len() && (#[trigger] rows[k]).take(l.vars.len() as int) == l.rows[i];
    assert(join_tables(l, r, cond, true).rows[k] == rows[k]);
}

proof fn lemma_left_join_from(
    lv: Seq<Seq<char>>,
    rv: Seq<Seq<char>>,
    left: Seq<Seq<u32>>,
    right: Seq<Seq<u32>>,
    cond: Condition,
    i: int,
)
    requires
        0 <= i < left.len(),
        left[i].len() == lv.len(),
    ensures
        exists|k: int|
            0 <= k < joined_rows(lv, rv, left, right, cond, true).len() && (#[trigger] joined_rows(
                lv,
                rv,
                left,
                right,
                cond,
                true,
            )[k]).take(lv.len() as int) == left[i],
    decreases left.len(),
{
    let rest = joined_rows(lv, rv, left.drop_last(), right, cond, true);
    let all = joined_rows(lv, rv, left, right, cond, true);
    if i < left.len() - 1 {
        lemma_left_join_from(lv, rv, left.drop_last(), right, cond, i);
        let k = choose|k: int|
            0 <= k < rest.len() && (#[trigger] rest[k]).take(lv.len() as int) == left.drop_last()[i];
        assert(all[k] == rest[k]);
    } else {
        let l = left.last();
        let own = joined_row(lv, rv, l, right, cond, true);
        lemma_matches_begin(lv, rv, l, right, cond);
        assert(own.len() > 0);
        assert(all[rest.len() as int] == own[0]);
        assert(own[0].take(lv.len() as int) =~= l);
    }
}

proof fn lemma_matches_begin(
    lv: Seq<Seq<char>>,
    rv: Seq<Seq<char>>,
    l: Seq<u32>,
    right: Seq<Seq<u32>>,
    cond: Condition,
)
    ensures
        forall|k: int|
            0 <= k < matches_of(lv, rv, l, right, cond).len() ==> (#[trigger] matches_of(
                lv,
                rv,
                l,
                right,
                cond,
            )[k]).take(l.len() as int) == l && matches_of(lv, rv, l, right, cond)[k].len() == l.len()
                + new_cols(lv, rv).len(),
    decreases right.len(),
{
    if right.len() > 0 {
        lemma_matches_begin(lv, rv, l, right.drop_last(), cond);
        let row = l + picked(right.last(), new_cols(lv, rv));
        assert(row.take(l.len() as int) =~= l);
        let before = matches_of(lv, rv, l, right.drop_last(), cond);
        let all = matches_of(lv, rv, l, right, cond);
        assert forall|k: int| 0 <= k < all.len() implies (#[trigger] all[k]).take(l.len() as int) == l
            && all[k].len() == l.len() + new_cols(lv, rv).len() by {
            if k < before.len() {
                assert(all[k] == before[k]);
            } else {
                assert(all[k] == row);
            }
        }
    }
}

/// The rows of the right side with a given key.
spec fn key_rows(right: Seq<Seq<u32>>, shared: Seq<(usize, usize)>, key: Seq<u32>) -> Seq<usize>
    decreases right.len(),
{
    if right.len() == 0 {
        Seq::empty()
    } else {
        let before = key_rows(right.drop_last(), shared, key);
        if right_key(right.last(), shared) == key {
            before.push((right.len() - 1) as usize)
        } else {
            before
        }
    }
}

/// The continuations of a left row by the listed right rows.
spec fn picked_matches(
    l: Seq<u32>,
    cols: Seq<usize>,
    right: Seq<Seq<u32>>,
    list: Seq<usize>,
    cond: Condition,
) -> Seq<Seq<u32>>
    decreases list.len(),
{
    if list.len() == 0 {
        Seq::empty()
    } else {
        let before = picked_matches(l, cols, right, list.drop_last(), cond);
        let row = l + picked(right[list.last() as int], cols);
        if cond(row) {
            before.push(row)
        } else {
            before
        }
    }
}

proof fn lemma_key_rows(right: Seq<Seq<u32>>, shared: Seq<(usize, usize)>, key: Seq<u32>)
    requires
        right.len() <= usize::MAX,
    ensures
        forall|i: int|
            0 <= i < key_rows(right, shared, key).len() ==> (#[trigger] key_rows(right, shared, key)[i])
                < right.len(),
    decreases right.len(),
{
    if right.len() > 0 {
        lemma_key_rows(right.drop_last(), shared, key);
        let before = key_rows(right.drop_last(), shared, key);
        let all = key_rows(right, shared, key);
        assert forall|i: int| 0 <= i < all.len() implies (#[trigger] all[i]) < right.len() by {
            if i < before.len() {
                assert(all[i] == before[i]);
            }
        }
    }
}

/// Only the listed rows of a larger table matter.
proof fn lemma_picked_prefix(
    l: Seq<u32>,
    cols: Seq<usize>,
    right: Seq<Seq<u32>>,
    n: int,
    list: Seq<usize>,
    cond: Condition,
)
    requires
        0 <= n <= right.len(),
        forall|i: int| 0 <= i < list.len() ==> (#[trigger] list[i]) < n,
    ensures
        picked_matches(l, cols, right, list, cond) == picked_matches(l, cols, right.take(n), list, cond),
    decreases list.len(),
{
    if list.len() > 0 {
        let rest = list.drop_last();
        assert forall|i: int| 0 <= i < rest.len() implies (#[trigger] rest[i]) < n by {
            assert(rest[i] == list[i]);
        }
        lemma_picked_prefix(l, cols, right, n, rest, cond);
        assert(list[list.len() - 1] < n);
        assert(right.take(n)[list.last() as int] == right[list.last() as int]);
    }
}

/// Looking up the key finds exactly the matches.
proof fn lemma_lookup(
    lv: Seq<Seq<char>>,
    rv: Seq<Seq<char>>,
    l: Seq<u32>,
    right: Seq<Seq<u32>>,
    cond: Condition,
)
    requires
        right.len() <= usize::MAX,
    ensures
        matches_of(lv, rv, l, right, cond) == picked_matches(
            l,
            new_cols(lv, rv),
            right,
            key_rows(right, shared_cols(lv, rv), left_key(l, shared_cols(lv, rv))),
            cond,
        ),
    decreases right.len(),
{
    if right.len() > 0 {
        let shared = shared_cols(lv, rv);
        let key = left_key(l, shared);
        let rest = right.drop_last();
        let n = right.len() - 1;
        lemma_lookup(lv, rv, l, rest, cond);
        lemma_key_rows(rest, shared, key);
        let list = key_rows(rest, shared, key);
        assert(right.take(n) =~= rest);
        lemma_picked_prefix(l, new_cols(lv, rv), right, n, list, cond);
        if right_key(right.last(), shared) == key {
            assert(list.push(n as usize).drop_last() =~= list);
        }
    }
}

proof fn lemma_cols_bounds(lv: Seq<Seq<char>>, rv: Seq<Seq<char>>)
    requires
        lv.len() <= usize::MAX,
        rv.len() <= usize::MAX,
    ensures
        forall|i: int|
            0 <= i < shared_cols(lv, rv).len() ==> (#[trigger] shared_cols(lv, rv)[i]).0 < lv.len()
                && shared_cols(lv, rv)[i].1 < rv.len(),
        forall|i: int|
            0 <= i < new_cols(lv, rv).len() ==> (#[trigger] new_cols(lv, rv)[i]) < rv.len(),
        new_cols(lv, rv).len() <= rv.len(),
    decreases rv.len(),
{
    if rv.len() > 0 {
        lemma_cols_bounds(lv, rv.drop_last());
        crate::hypertrie::executor::lemma_place_bounds(lv, rv.last());
        let s0 = shared_cols(lv, rv.drop_last());
        let s1 = shared_cols(lv, rv);
        let n0 = new_cols(lv, rv.drop_last());
        let n1 = new_cols(lv, rv);
        assert forall|i: int| 0 <= i < s1.len() implies (#[trigger] s1[i]).0 < lv.len() && s1[i].1
            < rv.len() by {
            if i < s0.len() {
                assert(s1[i] == s0[i]);
            }
        }
        assert forall|i: int| 0 <= i < n1.len() implies (#[trigger] n1[i]) < rv.len() by {
            if i < n0.len() {
                assert(n1[i] == n0[i]);
            }
        }
    }
}

/// The places of the shared and of the new columns.
fn split_cols(lv: &Vec<String>, rv: &Vec<String>) -> (r: (Vec<(usize, usize)>, Vec<usize>))
    ensures
        r.0@ == shared_cols(texts(lv@), texts(rv@)),
        r.1@ == new_cols(texts(lv@), texts(rv@)),
{
    let mut shared: Vec<(usize, usize)> = Vec::new();
    let mut fresh: Vec<usize> = Vec::new();
    let ghost l = texts(lv@);
    let ghost rr = texts(rv@);
    let mut i: usize = 0;
    assert(rr.take(0) =~= Seq::<Seq<char>>::empty());
    while i < rv.len()
        invariant
            i <= rv@.len(),
            l == texts(lv@),
            rr == texts(rv@),
            shared@ == shared_cols(l, rr.take(i as int)),
            fresh@ == new_cols(l, rr.take(i as int)),
        decreases rv@.len() - i,
    {
        let p: usize = column_of(lv, rv[i].as_str());
        proof {
            assert(rr.take(i + 1).drop_last() =~= rr.take(i as int));
            assert(rr.take(i + 1).last() == rv@[i as int]@);
        }
        if p < lv.len() {
            shared.push((p, i));
        } else {
            fresh.push(i);
        }
        i += 1;
    }
    assert(rr.take(i as int) =~= rr);
    (shared, fresh)
}

/// The columns of the left, then the given ones of the right.
fn named_columns(lv: &Vec<String>, rv: &Vec<String>, fresh: &Vec<usize>) -> (vars: Vec<String>)
    requires
        fresh@ == new_cols(texts(lv@), texts(rv@)),
    ensures
        texts(vars@) == join_vars(texts(lv@), texts(rv@)),
        vars@.len() == join_vars(texts(lv@), texts(rv@)).len(),
{
    let ghost l = texts(lv@);
    let ghost r = texts(rv@);
    let ghost all_vars = join_vars(l, r);
    let mut vars: Vec<String> = copy_vars(lv);
    let n_left: usize = lv.len();
    let n_right: usize = rv.len();
    let mut i: usize = 0;
    proof {
        assert(r.len() == n_right && l.len() == n_left);
        lemma_cols_bounds(l, r);
        assert(texts(vars@) =~= all_vars.take(l.len() as int));
    }
    while i < fresh.len()
        invariant
            l == texts(lv@),
            r == texts(rv@),
            r.len() == rv@.len(),
            fresh@ == new_cols(l, r),
            forall|i: int| 0 <= i < fresh@.len() ==> (#[trigger] fresh@[i]) < r.len(),
            all_vars == join_vars(l, r),
            i <= fresh@.len(),
            texts(vars@) == all_vars.take(l.len() + i),
        decreases fresh@.len() - i,
    {
        let ghost before = texts(vars@);
        let c: usize = fresh[i];
        vars.push(rv[c].clone());
        assert(texts(vars@) =~= before.push(rv@[c as int]@));
        i += 1;
        assert(texts(vars@) =~= all_vars.take(l.len() + i));
    }
    assert(texts(vars@) =~= all_vars);
    vars
}

/// The columns of a join.
pub(crate) fn join_columns(lv: &Vec<String>, rv: &Vec<String>) -> (vars: Vec<String>)
    ensures
        texts(vars@) == join_vars(texts(lv@), texts(rv@)),
{
    let (_shared, fresh) = split_cols(lv, rv);
    named_columns(lv, rv, &fresh)
}

/// The values of the shared columns of a right row.
fn key_of_right(row: &[u32], shared: &Vec<(usize, usize)>) -> (k: Vec<u32>)
    requires
        forall|i: int| 0 <= i < shared@.len() ==> (#[trigger] shared@[i]).1 < row@.len(),
    ensures
        k@ == right_key(row@, shared@),
{
    let mut k: Vec<u32> = Vec::new();
    let mut i: usize = 0;
    while i < shared.len()
        invariant
            i <= shared@.len(),
            forall|i: int| 0 <= i < shared@.len() ==> (#[trigger] shared@[i]).1 < row@.len(),
            k@ == right_key(row@, shared@).take(i as int),
        decreases shared@.len() - i,
    {
        k.push(row[shared[i].1]);
        i += 1;
        assert(k@ =~= right_key(row@, shared@).take(i as int));
    }
    assert(k@ =~= right_key(row@, shared@));
    k
}

/// The values of the shared columns of a left row.
fn key_of_left(row: &[u32], shared: &Vec<(usize, usize)>) -> (k: Vec<u32>)
    requires
        forall|i: int| 0 <= i < shared@.len() ==> (#[trigger] shared@[i]).0 < row@.len(),
    ensures
        k@ == left_key(row@, shared@),
{
    let mut k: Vec<u32> = Vec::new();
    let mut i: usize = 0;
    while i < shared.len()
        invariant
            i <= shared@.len(),
            forall|i: int| 0 <= i < shared@.len() ==> (#[trigger] shared@[i]).0 < row@.len(),
            k@ == left_key(row@, shared@).take(i as int),
        decreases shared@.len() - i,
    {
        k.push(row[shared[i].0]);
        i += 1;
        assert(k@ =~= left_key(row@, shared@).take(i as int));
    }
    assert(k@ =~= left_key(row@, shared@));
    k
}

/// The columns `cols` of a row.
pub(crate) fn pick_cols(row: &[u32], cols: &Vec<usize>) -> (k: Vec<u32>)
    requires
        forall|i: int| 0 <= i < cols@.len() ==> (#[trigger] cols@[i]) < row@.len(),
    ensures
        k@ == picked(row@, cols@),
{
    let mut k: Vec<u32> = Vec::new();
    let mut i: usize = 0;
    while i < cols.len()
        invariant
            i <= cols@.len(),
            forall|i: int| 0 <= i < cols@.len() ==> (#[trigger] cols@[i]) < row@.len(),
            k@ == picked(row@, cols@).take(i as int),
        decreases cols@.len() - i,
    {
        k.push(row[cols[i]]);
        i += 1;
        assert(k@ =~= picked(row@, cols@).take(i as int));
    }
    assert(k@ =~= picked(row@, cols@));
    k
}

/// The rows of the right side, found by key.
struct KeyIndex {
    map: FxHashMap<Vec<u32>, usize>,
    buckets: Vec<Vec<usize>>,
}

impl KeyIndex {
    /// Holds the rows of `right`.
    spec fn holds(&self, right: Seq<Seq<u32>>, shared: Seq<(usize, usize)>) -> bool {
        let m = row_map(self.map);
        &&& forall|k: Seq<u32>| #[trigger] m.contains_key(k) <==> key_rows(right, shared, k).len() > 0
        &&& forall|k: Seq<u32>| #[trigger]
            m.contains_key(k) ==> m[k] < self.buckets@.len() && self.buckets@[m[k] as int]@ == key_rows(
                right,
                shared,
                k,
            )
        &&& forall|k1: Seq<u32>, k2: Seq<u32>|
            #![trigger m[k1], m[k2]]
            m.contains_key(k1) && m.contains_key(k2) && m[k1] == m[k2] ==> k1 == k2
    }
}

/// Lists the rows of a block by key.
fn index_rows(right: &RowBlock, shared: &Vec<(usize, usize)>) -> (r: KeyIndex)
    requires
        right.wf(),
        forall|i: int| 0 <= i < shared@.len() ==> (#[trigger] shared@[i]).1 < right.width(),
    ensures
        r.holds(right@, shared@),
{
    let mut ix: KeyIndex = KeyIndex { map: rows_new(), buckets: Vec::new() };
    let n: usize = right.n_rows();
    let mut j: usize = 0;
    proof {
        right.lemma_wf();
        assert(right@.take(0) =~= Seq::<Seq<u32>>::empty());
        assert(ix.holds(right@.take(0), shared@));
    }
    while j < n
        invariant
            right.wf(),
            forall|i: int| 0 <= i < shared@.len() ==> (#[trigger] shared@[i]).1 < right.width(),
            j <= n,
            n == right@.len(),
            ix.holds(right@.take(j as int), shared@),
        decreases n - j,
    {
        let key: Vec<u32> = key_of_right(right.row(j), shared);
        let ghost kv = key@;
        let ghost before = ix;
        let ghost r0 = right@.take(j as int);
        let ghost r1 = right@.take(j + 1);
        proof {
            assert(r1.drop_last() =~= r0);
            assert(r1.last() == right@[j as int]);
            assert forall|k: Seq<u32>| #[trigger] key_rows(r1, shared@, k) == (if k == kv {
                key_rows(r0, shared@, k).push(j)
            } else {
                key_rows(r0, shared@, k)
            }) by {}
        }
        match rows_get(&ix.map, key.as_slice()) {
            Some(b) => {
                let bucket: &mut Vec<usize> = &mut ix.buckets[b];
                bucket.push(j);
                proof {
                    let m = row_map(ix.map);
                    assert(ix.buckets@ == before.buckets@.update(b as int, ix.buckets@[b as int]));
                    assert(ix.buckets@[b as int]@ == before.buckets@[b as int]@.push(j));
                    assert forall|k: Seq<u32>| #[trigger] m.contains_key(k) implies m[k]
                        < ix.buckets@.len() && ix.buckets@[m[k] as int]@ == key_rows(r1, shared@, k) by {
                        if k != kv {
                            assert(m[k] != m[kv]);
                        }
                    }
                    assert forall|k: Seq<u32>| #[trigger] m.contains_key(k) <==> key_rows(
                        r1,
                        shared@,
                        k,
                    ).len() > 0 by {
                        assert(row_map(before.map).contains_key(k) <==> key_rows(r0, shared@, k).len()
                            > 0);
                    }
                }
            },
            None => {
                let b: usize = ix.buckets.len();
                let mut one: Vec<usize> = Vec::new();
                one.push(j);
                ix.buckets.push(one);
                rows_insert(&mut ix.map, key, b);
                proof {
                    let m0 = row_map(before.map);
                    let m = row_map(ix.map);
                    assert(key_rows(r0, shared@, kv).len() == 0) by {
                        assert(!m0.contains_key(kv));
                    }
                    assert(one@ =~= key_rows(r0, shared@, kv).push(j));
                    assert forall|k: Seq<u32>| #[trigger] m.contains_key(k) <==> key_rows(
                        r1,
                        shared@,
                        k,
                    ).len() > 0 by {
                        assert(m0.contains_key(k) <==> key_rows(r0, shared@, k).len() > 0);
                    }
                    assert forall|k: Seq<u32>| #[trigger] m.contains_key(k) implies m[k]
                        < ix.buckets@.len() && ix.buckets@[m[k] as int]@ == key_rows(r1, shared@, k) by {
                        if k != kv {
                            assert(m0.contains_key(k));
                        }
                    }
                    assert forall|k1: Seq<u32>, k2: Seq<u32>|
                        #![trigger m[k1], m[k2]]
                        m.contains_key(k1) && m.contains_key(k2) && m[k1] == m[k2] implies k1 == k2 by {
                        if k1 != kv {
                            assert(m0.contains_key(k1));
                        }
                        if k2 != kv {
                            assert(m0.contains_key(k2));
                        }
                    }
                }
            },
        }
        j += 1;
    }
    assert(right@.take(j as int) =~= right@);
    ix
}

proof fn lemma_joined_prefix(
    lv: Seq<Seq<char>>,
    rv: Seq<Seq<char>>,
    left: Seq<Seq<u32>>,
    right: Seq<Seq<u32>>,
    cond: Condition,
    outer: bool,
    i: int,
)
    requires
        0 <= i <= left.len(),
    ensures
        joined_rows(lv, rv, left.take(i), right, cond, outer).len() <= joined_rows(
            lv,
            rv,
            left,
            right,
            cond,
            outer,
        ).len(),
    decreases left.len() - i,
{
    if i < left.len() {
        lemma_joined_prefix(lv, rv, left, right, cond, outer, i + 1);
        assert(left.take(i + 1).drop_last() =~= left.take(i));
    } else {
        assert(left.take(i) =~= left);
    }
}

proof fn lemma_picked_len(
    l: Seq<u32>,
    cols: Seq<usize>,
    right: Seq<Seq<u32>>,
    list: Seq<usize>,
    cond: Condition,
    i: int,
)
    requires
        0 <= i <= list.len(),
    ensures
        picked_matches(l, cols, right, list.take(i), cond).len() <= picked_matches(
            l,
            cols,
            right,
            list,
            cond,
        ).len(),
    decreases list.len() - i,
{
    if i < list.len() {
        lemma_picked_len(l, cols, right, list, cond, i + 1);
        assert(list.take(i + 1).drop_last() =~= list.take(i));
    } else {
        assert(list.take(i) =~= list);
    }
}

/// A test of joined rows.
pub trait RowTest {
    /// The rows that pass.
    spec fn holds(&self) -> Condition;

    /// Whether the test can be used on rows of this width.
    spec fn fits(&self, width: nat) -> bool;

    fn test(&self, row: &[u32]) -> (r: bool)
        requires
            self.fits(row@.len()),
        ensures
            r == (self.holds())(row@),
    ;
}

/// Accepts every row.
pub struct AnyRow {}

pub open spec fn any_row() -> Condition {
    |row: Seq<u32>| true
}

impl RowTest for AnyRow {
    open spec fn holds(&self) -> Condition {
        any_row()
    }

    open spec fn fits(&self, width: nat) -> bool {
        true
    }

    fn test(&self, _row: &[u32]) -> (r: bool) {
        true
    }
}

/// Joins two tables on their shared columns. The right rows are listed by key;
/// each left row is continued by the right rows under its key. With `outer` set,
/// a left row without a continuation is kept, its new columns unbound.
pub fn hash_join<T: RowTest>(left: &Solutions, right: &Solutions, test: &T, outer: bool, cap: usize) -> (r:
    Result<Solutions, String>)
    requires
        left.wf(),
        right.wf(),
        test.fits(join_vars(left@.vars, right@.vars).len()),
    ensures
        outcome(r) == within(join_tables(left@, right@, test.holds(), outer), cap),
        r matches Ok(s) ==> s.wf(),
{
    let ghost lv = left@.vars;
    let ghost rv = right@.vars;
    let ghost cond = test.holds();
    let (shared, fresh) = split_cols(&left.vars, &right.vars);
    let n_left: usize = left.vars.len();
    let n_right: usize = right.vars.len();
    proof {
        assert(lv.len() == left.vars@.len() && rv.len() == right.vars@.len());
        lemma_cols_bounds(lv, rv);
    }
    let mut i: usize = 0;
    let ghost all_vars = join_vars(lv, rv);
    let vars: Vec<String> = named_columns(&left.vars, &right.vars, &fresh);
    let width: usize = vars.len();
    assert(width == all_vars.len());
    let ix: KeyIndex = index_rows(&right.rows, &shared);
    let mut out: RowBlock = RowBlock::new(width);
    let n: usize = left.rows.n_rows();
    let ghost rr = right.rows@;
    let ghost ll = left.rows@;
    let ghost total = joined_rows(lv, rv, ll, rr, cond, outer);
    i = 0;
    proof {
        left.rows.lemma_wf();
        right.rows.lemma_wf();
        assert(ll.take(0) =~= Seq::<Seq<u32>>::empty());
    }
    while i < n
        invariant
            left.wf(),
            right.wf(),
            lv == left@.vars,
            rv == right@.vars,
            lv.len() == left.vars@.len(),
            rv.len() == right.vars@.len(),
            cond == test.holds(),
            test.fits(width as nat),
            width == join_vars(lv, rv).len(),
            texts(vars@) == join_vars(lv, rv),
            vars@.len() == width,
            shared@ == shared_cols(lv, rv),
            fresh@ == new_cols(lv, rv),
            forall|i: int| 0 <= i < shared@.len() ==> (#[trigger] shared@[i]).0 < lv.len(),
            forall|i: int| 0 <= i < fresh@.len() ==> (#[trigger] fresh@[i]) < rv.len(),
            ix.holds(rr, shared@),
            rr == right.rows@,
            rr.len() <= usize::MAX,
            ll == left.rows@,
            n == ll.len(),
            i <= n,
            total == joined_rows(lv, rv, ll, rr, cond, outer),
            out.wf(),
            out.width() == width,
            out@.len() <= cap,
            out@ == joined_rows(lv, rv, ll.take(i as int), rr, cond, outer),
        decreases n - i,
    {
        let row: &[u32] = left.rows.row(i);
        let ghost start = out@;
        let ghost found = matches_of(lv, rv, row@, rr, cond);
        let key: Vec<u32> = key_of_left(row, &shared);
        proof {
            assert(ll.take(i + 1).drop_last() =~= ll.take(i as int));
            assert(ll.take(i + 1).last() == row@);
            lemma_lookup(lv, rv, row@, rr, cond);
            lemma_key_rows(rr, shared@, key@);
            lemma_joined_prefix(lv, rv, ll, rr, cond, outer, i + 1);
        }
        let mut any: bool = false;
        if let Some(b) = rows_get(&ix.map, key.as_slice()) {
            let list: &Vec<usize> = &ix.buckets[b];
            let ghost lst = key_rows(rr, shared@, key@);
            assert(list@ == lst);
            let mut k: usize = 0;
            proof {
                assert(lst.take(0) =~= Seq::<usize>::empty());
                assert(start + Seq::<Seq<u32>>::empty() =~= start);
            }
            while k < list.len()
                invariant
                    right.wf(),
                    rr == right.rows@,
                    list@ == lst,
                    forall|i: int| 0 <= i < lst.len() ==> (#[trigger] lst[i]) < rr.len(),
                    fresh@ == new_cols(lv, rv),
                    forall|i: int| 0 <= i < fresh@.len() ==> (#[trigger] fresh@[i]) < rv.len(),
                    rv.len() == right.vars@.len(),
                    cond == test.holds(),
                    test.fits(width as nat),
                    width == lv.len() + fresh@.len(),
                    row@.len() == lv.len(),
                    found == picked_matches(row@, fresh@, rr, lst, cond),
                    total.len() >= start.len() + found.len(),
                    total == joined_rows(lv, rv, ll, rr, cond, outer),
                    lv == left@.vars,
                    rv == right@.vars,
                    ll == left.rows@,
                    rr == right.rows@,
                    k <= list@.len(),
                    out.wf(),
                    out.width() == width,
                    out@.len() <= cap,
                    out@ == start + picked_matches(row@, fresh@, rr, lst.take(k as int), cond),
                    any == (picked_matches(row@, fresh@, rr, lst.take(k as int), cond).len() > 0),
                decreases list@.len() - k,
            {
                let more: Vec<u32> = pick_cols(right.rows.row(list[k]), &fresh);
                let mut merged: Vec<u32> = slice_to_vec(row);
                merged.extend_from_slice(more.as_slice());
                proof {
                    assert(lst.take(k + 1).drop_last() =~= lst.take(k as int));
                    assert(lst.take(k + 1).last() == list@[k as int]);
                    assert(merged@ =~= row@ + picked(rr[list@[k as int] as int], fresh@));
                    lemma_picked_len(row@, fresh@, rr, lst, cond, k + 1);
                }
                if test.test(merged.as_slice()) {
                    if out.n_rows() >= cap {
                        proof {
                            assert(start.len() + picked_matches(
                                row@,
                                fresh@,
                                rr,
                                lst.take(k + 1),
                                cond,
                            ).len() > cap);
                        }
                        return Err(op_too_large(cap));
                    }
                    let ghost mid = out@;
                    out.push_row(merged.as_slice());
                    any = true;
                    assert(out@ =~= start + picked_matches(row@, fresh@, rr, lst.take(k + 1), cond));
                }
                k += 1;
            }
            assert(lst.take(k as int) =~= lst);
        } else {
            proof {
                assert(key_rows(rr, shared@, key@).len() == 0);
                assert(found.len() == 0);
                assert(start + found =~= start);
            }
        }
        if outer && !any {
            if out.n_rows() >= cap {
                return Err(op_too_large(cap));
            }
            out.push_row_padded(row, NULL_ID);
            assert(out@ =~= start + seq![padded(row@, NULL_ID, width as nat)]);
        }
        i += 1;
    }
    assert(ll.take(i as int) =~= ll);
    Ok(Solutions { vars, rows: out })
}

// --- Unions ------------------------------------------------------------------------------

/// The columns of a union: those of the left, then those that only the right
/// has.
pub open spec fn union_vars(lv: Seq<Seq<char>>, rv: Seq<Seq<char>>) -> Seq<Seq<char>> {
    crate::hypertrie::planner::merged_names(lv, rv)
}

/// A row in other columns; what it does not have is unbound.
pub open spec fn aligned(vars: Seq<Seq<char>>, from: Seq<Seq<char>>, row: Seq<u32>) -> Seq<u32> {
    Seq::new(
        vars.len(),
        |i: int|
            if place(from, vars[i]) < from.len() {
                row[place(from, vars[i])]
            } else {
                NULL_ID
            },
    )
}

pub open spec fn aligned_rows(vars: Seq<Seq<char>>, t: Table) -> Seq<Seq<u32>> {
    t.rows.map_values(|r: Seq<u32>| aligned(vars, t.vars, r))
}

/// The union of two tables: the rows of the left, then those of the right.
pub open spec fn union_tables(l: Table, r: Table) -> Table {
    let vars = union_vars(l.vars, r.vars);
    Table { vars, rows: aligned_rows(vars, l) + aligned_rows(vars, r) }
}

/// Appends the rows of a table in other columns; `false` if there are too many.
pub(crate) fn append_aligned(out: &mut RowBlock, vars: &Vec<String>, t: &Solutions, cap: usize) -> (fits: bool)
    requires
        old(out).wf(),
        old(out).width() == vars@.len(),
        old(out)@.len() <= cap,
        t.wf(),
    ensures
        fits == (old(out)@.len() + t@.rows.len() <= cap),
        fits ==> final(out).wf() && final(out).width() == old(out).width() && final(out)@
            == old(out)@ + aligned_rows(texts(vars@), t@),
{
    let ghost vs = texts(vars@);
    let ghost from = t@.vars;
    let ghost start = out@;
    let ghost want = aligned_rows(vs, t@);
    let width: usize = vars.len();
    let n_from: usize = t.vars.len();
    let mut map: Vec<usize> = Vec::new();
    let mut i: usize = 0;
    while i < width
        invariant
            i <= width,
            width == vars@.len(),
            vs == texts(vars@),
            from == t@.vars,
            map@.len() == i,
            forall|k: int| 0 <= k < i ==> #[trigger] map@[k] == place(from, vs[k]),
        decreases width - i,
    {
        map.push(column_of(&t.vars, vars[i].as_str()));
        i += 1;
    }
    let n: usize = t.rows.n_rows();
    i = 0;
    assert(start + want.take(0) =~= start);
    while i < n
        invariant
            t.wf(),
            i <= n,
            n == t@.rows.len(),
            width == vars@.len(),
            n_from == t.vars@.len(),
            vs == texts(vars@),
            vs.len() == width,
            from == t@.vars,
            from.len() == n_from,
            map@.len() == width,
            forall|k: int| 0 <= k < width ==> #[trigger] map@[k] == place(from, vs[k]),
            want == aligned_rows(vs, t@),
            start == old(out)@,
            out.wf(),
            out.width() == width,
            out@.len() <= cap,
            out@ == start + want.take(i as int),
        decreases n - i,
    {
        if out.n_rows() >= cap {
            return false;
        }
        let row: &[u32] = t.rows.row(i);
        let mut buf: Vec<u32> = Vec::new();
        let mut k: usize = 0;
        while k < width
            invariant
                k <= width,
                width == vs.len(),
                n_from == from.len(),
                row@.len() == n_from,
                map@.len() == width,
                forall|k: int| 0 <= k < width ==> #[trigger] map@[k] == place(from, vs[k]),
                buf@ == aligned(vs, from, row@).take(k as int),
            decreases width - k,
        {
            let c: usize = map[k];
            if c < n_from {
                buf.push(row[c]);
            } else {
                buf.push(NULL_ID);
            }
            k += 1;
            assert(buf@ =~= aligned(vs, from, row@).take(k as int));
        }
        assert(buf@ =~= aligned(vs, from, row@));
        out.push_row(buf.as_slice());
        i += 1;
        assert(out@ =~= start + want.take(i as int));
    }
    assert(want.take(i as int) =~= want);
    true
}

/// A copy of a list of names.
pub(crate) fn copy_vars(vars: &Vec<String>) -> (r: Vec<String>)
    ensures
        texts(r@) == texts(vars@),
        r@.len() == vars@.len(),
{
    let ghost l = texts(vars@);
    let mut r: Vec<String> = Vec::new();
    let mut i: usize = 0;
    while i < vars.len()
        invariant
            i <= vars@.len(),
            l == texts(vars@),
            r@.len() == i,
            texts(r@) == l.take(i as int),
        decreases vars@.len() - i,
    {
        let ghost before = texts(r@);
        r.push(vars[i].clone());
        assert(texts(r@) =~= before.push(vars@[i as int]@));
        i += 1;
        assert(texts(r@) =~= l.take(i as int));
    }
    assert(l.take(i as int) =~= l);
    r
}

/// The names of the left, then those that only the right has.
pub(crate) fn merge_vars(lv: &Vec<String>, rv: &Vec<String>) -> (vars: Vec<String>)
    ensures
        texts(vars@) == union_vars(texts(lv@), texts(rv@)),
{
    let mut vars: Vec<String> = copy_vars(lv);
    let ghost l = texts(lv@);
    let ghost r = texts(rv@);
    let mut i: usize = 0;
    assert(r.take(0) =~= Seq::<Seq<char>>::empty());
    while i < rv.len()
        invariant
            i <= rv@.len(),
            r == texts(rv@),
            texts(vars@) == union_vars(l, r.take(i as int)),
        decreases rv@.len() - i,
    {
        let ghost before = texts(vars@);
        let p: usize = column_of(&vars, rv[i].as_str());
        proof {
            assert(r.take(i + 1).drop_last() =~= r.take(i as int));
            assert(r.take(i + 1).last() == rv@[i as int]@);
            crate::hypertrie::executor::lemma_place_bounds(before, rv@[i as int]@);
        }
        if p >= vars.len() {
            vars.push(rv[i].clone());
            assert(texts(vars@) =~= before.push(rv@[i as int]@));
        }
        i += 1;
    }
    assert(r.take(i as int) =~= r);
    vars
}

/// The union of two tables.
pub fn union_rows(left: &Solutions, right: &Solutions, cap: usize) -> (r: Result<Solutions, String>)
    requires
        left.wf(),
        right.wf(),
    ensures
        outcome(r) == within(union_tables(left@, right@), cap),
        r matches Ok(s) ==> s.wf(),
{
    let vars: Vec<String> = merge_vars(&left.vars, &right.vars);
    let mut out: RowBlock = RowBlock::new(vars.len());
    let ghost vs = texts(vars@);
    if !append_aligned(&mut out, &vars, left, cap) {
        return Err(op_too_large(cap));
    }
    if !append_aligned(&mut out, &vars, right, cap) {
        return Err(op_too_large(cap));
    }
    proof {
        assert(out@ =~= union_tables(left@, right@).rows);
    }
    Ok(Solutions { vars, rows: out })
}

} // verus!
