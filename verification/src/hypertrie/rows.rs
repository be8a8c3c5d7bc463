//! Result rows, held row by row in one flat list.

use crate::hypertrie::NULL_ID;
use crate::order::{merge_sort, Rank};
use vstd::prelude::*;
use vstd::slice::{slice_subrange, slice_to_vec};

verus! {

/// Marks a variable that has no value in a row.
pub const UNBOUND: u32 = NULL_ID;

/// Row `i` of a flat list.
pub open spec fn row_at(data: Seq<u32>, width: nat, i: int) -> Seq<u32> {
    data.subrange(i * width, i * width + width)
}

/// The rows of a flat list.
pub open spec fn flat_rows(data: Seq<u32>, width: nat, n: nat) -> Seq<Seq<u32>> {
    Seq::new(n, |i: int| row_at(data, width, i))
}

proof fn lemma_bounds(i: int, n: int, width: int)
    requires
        0 <= i < n,
        0 <= width,
    ensures
        0 <= i * width,
        i * width + width <= n * width,
        (i + 1) * width == i * width + width,
{
    assert(0 <= i * width) by (nonlinear_arith)
        requires
            0 <= i,
            0 <= width,
    ;
    assert((i + 1) * width == i * width + width) by (nonlinear_arith);
    assert((i + 1) * width <= n * width) by (nonlinear_arith)
        requires
            i + 1 <= n,
            0 <= width,
    ;
}

/// Joining flat lists joins the rows.
proof fn lemma_joined(a: Seq<u32>, n: nat, b: Seq<u32>, m: nat, width: nat)
    requires
        a.len() == n * width,
        b.len() == m * width,
    ensures
        flat_rows(a + b, width, n + m) == flat_rows(a, width, n) + flat_rows(b, width, m),
        (a + b).len() == (n + m) * width,
{
    assert((n + m) * width == n * width + m * width) by (nonlinear_arith);
    let l = flat_rows(a + b, width, n + m);
    let r = flat_rows(a, width, n) + flat_rows(b, width, m);
    assert forall|i: int| 0 <= i < n + m implies l[i] == r[i] by {
        lemma_bounds(i, (n + m) as int, width as int);
        if i < n {
            lemma_bounds(i, n as int, width as int);
            assert(l[i] =~= row_at(a, width, i));
        } else {
            let k = i - n;
            lemma_bounds(k, m as int, width as int);
            assert(i * width == n * width + k * width) by (nonlinear_arith)
                requires
                    k == i - n,
            ;
            assert(l[i] =~= row_at(b, width, k));
        }
    }
    assert(l =~= r);
}

proof fn lemma_one_row(row: Seq<u32>, width: nat)
    requires
        row.len() == width,
    ensures
        flat_rows(row, width, 1) == seq![row],
        row.len() == 1 * width,
{
    assert(row_at(row, width, 0) =~= row);
    assert(flat_rows(row, width, 1) =~= seq![row]);
}

/// From position `i` on, row `a` comes before row `b`.
pub open spec fn row_lt_from(a: Seq<u32>, b: Seq<u32>, i: int) -> bool
    decreases a.len() - i,
{
    if 0 <= i < a.len() && i < b.len() {
        a[i] < b[i] || (a[i] == b[i] && row_lt_from(a, b, i + 1))
    } else {
        false
    }
}

/// Row `a` comes before row `b`: it is smaller at the first column where they
/// differ.
pub open spec fn row_lt(a: Seq<u32>, b: Seq<u32>) -> bool {
    row_lt_from(a, b, 0)
}

proof fn lemma_row_total(a: Seq<u32>, b: Seq<u32>, i: int)
    requires
        a.len() == b.len(),
        0 <= i <= a.len(),
        !row_lt_from(a, b, i),
        !row_lt_from(b, a, i),
    ensures
        forall|k: int| i <= k < a.len() ==> a[k] == b[k],
    decreases a.len() - i,
{
    if i < a.len() {
        lemma_row_total(a, b, i + 1);
    }
}

proof fn lemma_row_transitive(a: Seq<u32>, b: Seq<u32>, c: Seq<u32>, i: int)
    requires
        a.len() == b.len(),
        b.len() == c.len(),
        0 <= i <= a.len(),
        row_lt_from(a, b, i),
        row_lt_from(b, c, i),
    ensures
        row_lt_from(a, c, i),
    decreases a.len() - i,
{
    if i < a.len() && a[i] == b[i] && b[i] == c[i] {
        lemma_row_transitive(a, b, c, i + 1);
    }
}

proof fn lemma_row_irreflexive(a: Seq<u32>, i: int)
    requires
        0 <= i <= a.len(),
    ensures
        !row_lt_from(a, a, i),
    decreases a.len() - i,
{
    if i < a.len() {
        lemma_row_irreflexive(a, i + 1);
    }
}

/// The rows come in order, each once.
pub open spec fn increasing_rows(s: Seq<Seq<u32>>) -> bool {
    forall|i: int, j: int| #![trigger s[i], s[j]] 0 <= i < j < s.len() ==> row_lt(s[i], s[j])
}

proof fn lemma_row_one_way(a: Seq<u32>, b: Seq<u32>, i: int)
    requires
        0 <= i,
    ensures
        !(row_lt_from(a, b, i) && row_lt_from(b, a, i)),
    decreases a.len() - i,
{
    if i < a.len() && i < b.len() {
        lemma_row_one_way(a, b, i + 1);
    }
}

/// Rows in order without repetitions are determined by which rows they are.
pub proof fn lemma_increasing_rows_unique(a: Seq<Seq<u32>>, b: Seq<Seq<u32>>)
    requires
        increasing_rows(a),
        increasing_rows(b),
        forall|r: Seq<u32>| a.contains(r) <==> b.contains(r),
    ensures
        a == b,
    decreases a.len(),
{
    if a.len() == 0 {
        if b.len() > 0 {
            assert(b.contains(b[0]));
        }
        assert(a =~= b);
    } else {
        assert(a.contains(a.last()));
        assert(b.len() > 0);
        assert(b.contains(b.last()));
        let i = choose|i: int| 0 <= i < a.len() && a[i] == b.last();
        let j = choose|j: int| 0 <= j < b.len() && b[j] == a.last();
        lemma_row_one_way(a.last(), b.last(), 0);
        if i < a.len() - 1 {
            assert(row_lt(a[i], a.last()));
            if j < b.len() - 1 {
                assert(row_lt(b[j], b.last()));
            }
        }
        assert(a.last() == b.last());
        let a0 = a.drop_last();
        let b0 = b.drop_last();
        assert forall|r: Seq<u32>| a0.contains(r) <==> b0.contains(r) by {
            if a0.contains(r) {
                let k = choose|k: int| 0 <= k < a0.len() && a0[k] == r;
                assert(a[k] == r);
                assert(row_lt(a[k], a.last()));
                lemma_row_one_way(r, r, 0);
                assert(b.contains(r));
                let m = choose|m: int| 0 <= m < b.len() && b[m] == r;
                assert(b0[m] == r);
            }
            if b0.contains(r) {
                let k = choose|k: int| 0 <= k < b0.len() && b0[k] == r;
                assert(b[k] == r);
                assert(row_lt(b[k], b.last()));
                lemma_row_one_way(r, r, 0);
                assert(a.contains(r));
                let m = choose|m: int| 0 <= m < a.len() && a[m] == r;
                assert(a0[m] == r);
            }
        }
        lemma_increasing_rows_unique(a0, b0);
        assert(a =~= a0.push(a.last()));
        assert(b =~= b0.push(b.last()));
    }
}

/// The rows of a list in order, each once.
pub open spec fn rows_in_order(s: Seq<Seq<u32>>) -> Seq<Seq<u32>> {
    choose|t: Seq<Seq<u32>>|
        increasing_rows(t) && forall|r: Seq<u32>| #[trigger] t.contains(r) <==> s.contains(r)
}

/// Puts one more row into rows that are in order.
proof fn lemma_insert_row(t: Seq<Seq<u32>>, r: Seq<u32>) -> (u: Seq<Seq<u32>>)
    requires
        increasing_rows(t),
        forall|i: int| 0 <= i < t.len() ==> (#[trigger] t[i]).len() == r.len(),
    ensures
        increasing_rows(u),
        forall|x: Seq<u32>| #[trigger] u.contains(x) <==> t.contains(x) || x == r,
    decreases t.len(),
{
    if t.len() == 0 {
        let u = t.push(r);
        assert forall|x: Seq<u32>| #[trigger] u.contains(x) <==> t.contains(x) || x == r by {
            lemma_push_row(t, r, x);
        }
        u
    } else if t.last() == r {
        assert(t.contains(r));
        t
    } else if row_lt(t.last(), r) {
        let u = t.push(r);
        assert forall|x: Seq<u32>| #[trigger] u.contains(x) <==> t.contains(x) || x == r by {
            lemma_push_row(t, r, x);
        }
        assert forall|i: int, j: int| #![trigger u[i], u[j]] 0 <= i < j < u.len() implies row_lt(
            u[i],
            u[j],
        ) by {
            if j == t.len() && i < t.len() - 1 {
                assert(row_lt(t[i], t.last()));
                assert(t[i].len() == r.len());
                lemma_row_transitive(t[i], t.last(), r, 0);
            }
        }
        u
    } else {
        let last = t.last();
        if !row_lt(r, last) {
            lemma_row_total(r, last, 0);
            assert(r =~= last);
        }
        let front = t.drop_last();
        let v = lemma_insert_row(front, r);
        let u = v.push(last);
        assert forall|x: Seq<u32>| #[trigger] u.contains(x) <==> t.contains(x) || x == r by {
            lemma_push_row(v, last, x);
            lemma_push_row(front, last, x);
            assert(t =~= front.push(last));
            assert(v.contains(x) <==> front.contains(x) || x == r);
        }
        assert forall|i: int, j: int| #![trigger u[i], u[j]] 0 <= i < j < u.len() implies row_lt(
            u[i],
            u[j],
        ) by {
            if j == v.len() {
                assert(v.contains(v[i]));
                if v[i] != r {
                    assert(front.contains(v[i]));
                    let k = choose|k: int| 0 <= k < front.len() && front[k] == v[i];
                    assert(row_lt(t[k], t[t.len() - 1]));
                }
            } else {
                assert(row_lt(v[i], v[j]));
            }
        }
        u
    }
}

proof fn lemma_rows_can_be_ordered(s: Seq<Seq<u32>>, width: nat) -> (t: Seq<Seq<u32>>)
    requires
        forall|i: int| 0 <= i < s.len() ==> (#[trigger] s[i]).len() == width,
    ensures
        increasing_rows(t),
        forall|r: Seq<u32>| #[trigger] t.contains(r) <==> s.contains(r),
    decreases s.len(),
{
    if s.len() == 0 {
        s
    } else {
        let rest = s.drop_last();
        let t = lemma_rows_can_be_ordered(rest, width);
        assert forall|i: int| 0 <= i < t.len() implies (#[trigger] t[i]).len() == s.last().len() by {
            assert(t.contains(t[i]));
            let k = choose|k: int| 0 <= k < rest.len() && rest[k] == t[i];
            assert(rest[k].len() == width);
        }
        let u = lemma_insert_row(t, s.last());
        assert(s =~= rest.push(s.last()));
        assert forall|r: Seq<u32>| #[trigger] u.contains(r) <==> s.contains(r) by {
            lemma_push_row(rest, s.last(), r);
            assert(t.contains(r) <==> rest.contains(r));
        }
        u
    }
}

/// Rows of one width in order: the same rows, in order, each once.
pub proof fn law_rows_in_order(s: Seq<Seq<u32>>, width: nat)
    requires
        forall|i: int| 0 <= i < s.len() ==> (#[trigger] s[i]).len() == width,
    ensures
        increasing_rows(rows_in_order(s)),
        forall|r: Seq<u32>| #[trigger] rows_in_order(s).contains(r) <==> s.contains(r),
{
    let t = lemma_rows_can_be_ordered(s, width);
    assert(increasing_rows(t) && forall|r: Seq<u32>| #[trigger] t.contains(r) <==> s.contains(r));
}

/// Each row where it first occurs.
pub open spec fn first_rows(s: Seq<Seq<u32>>) -> Seq<Seq<u32>>
    decreases s.len(),
{
    if s.len() == 0 {
        Seq::empty()
    } else if s.drop_last().contains(s.last()) {
        first_rows(s.drop_last())
    } else {
        first_rows(s.drop_last()).push(s.last())
    }
}

/// Dropping repetitions keeps exactly the rows that were there, each once.
pub proof fn law_first_rows(s: Seq<Seq<u32>>)
    ensures
        forall|r: Seq<u32>| first_rows(s).contains(r) <==> s.contains(r),
        first_rows(s).no_duplicates(),
    decreases s.len(),
{
    if s.len() > 0 {
        let rest = s.drop_last();
        let last = s.last();
        law_first_rows(rest);
        assert(s =~= rest.push(last));
        assert forall|r: Seq<u32>| first_rows(s).contains(r) <==> s.contains(r) by {
            lemma_push_row(rest, last, r);
            lemma_push_row(first_rows(rest), last, r);
        }
    }
}

pub proof fn lemma_push_row(s: Seq<Seq<u32>>, v: Seq<u32>, r: Seq<u32>)
    ensures
        s.push(v).contains(r) <==> s.contains(r) || r == v,
{
    let t = s.push(v);
    if s.contains(r) {
        let i = choose|i: int| 0 <= i < s.len() && s[i] == r;
        assert(t[i] == r);
    }
    if r == v {
        assert(t[s.len() as int] == r);
    }
    if t.contains(r) {
        let i = choose|i: int| 0 <= i < t.len() && t[i] == r;
        if i < s.len() {
            assert(s[i] == r);
        }
    }
}

/// The columns `cols` of a row, in the given order.
pub open spec fn picked(row: Seq<u32>, cols: Seq<usize>) -> Seq<u32> {
    Seq::new(cols.len(), |k: int| row[cols[k] as int])
}

/// The rows from `offset` on, at most `limit` of them.
pub open spec fn sliced(s: Seq<Seq<u32>>, offset: nat, limit: Option<usize>) -> Seq<Seq<u32>> {
    let start = if offset <= s.len() {
        offset as int
    } else {
        s.len() as int
    };
    let end = match limit {
        Some(l) => if start + l <= s.len() {
            start + l
        } else {
            s.len() as int
        },
        None => s.len() as int,
    };
    s.subrange(start, end)
}

/// A row followed by `fill` up to `width` columns.
pub open spec fn padded(row: Seq<u32>, fill: u32, width: nat) -> Seq<u32> {
    row + Seq::new((width - row.len()) as nat, |i: int| fill)
}

/// A table of identifiers with a fixed number of columns. Its view is the list
/// of its rows.
#[derive(Debug)]
pub struct RowBlock {
    n_vars: usize,
    n_rows: usize,
    data: Vec<u32>,
}

impl View for RowBlock {
    type V = Seq<Seq<u32>>;

    closed spec fn view(&self) -> Seq<Seq<u32>> {
        flat_rows(self.data@, self.n_vars as nat, self.n_rows as nat)
    }
}

impl Clone for RowBlock {
    fn clone(&self) -> (r: RowBlock)
        ensures
            r@ == self@,
            r.width() == self.width(),
            self.wf() ==> r.wf(),
    {
        let data: Vec<u32> = slice_to_vec(self.data.as_slice());
        RowBlock { n_vars: self.n_vars, n_rows: self.n_rows, data }
    }
}

impl Default for RowBlock {
    fn default() -> (r: RowBlock)
        ensures
            r.wf(),
            r.width() == 0,
            r@.len() == 0,
    {
        RowBlock::new(0)
    }
}

impl RowBlock {
    /// The number of columns.
    pub closed spec fn width(&self) -> nat {
        self.n_vars as nat
    }

    pub closed spec fn wf(&self) -> bool {
        self.data@.len() == self.n_rows * self.n_vars
    }

    /// Every row has the width of the block.
    pub proof fn lemma_wf(&self)
        requires
            self.wf(),
        ensures
            self@.len() <= usize::MAX,
            forall|i: int| 0 <= i < self@.len() ==> (#[trigger] self@[i]).len() == self.width(),
    {
        assert forall|i: int| 0 <= i < self@.len() implies (#[trigger] self@[i]).len()
            == self.width() by {
            lemma_bounds(i, self.n_rows as int, self.n_vars as int);
        }
    }

    pub fn new(n_vars: usize) -> (r: RowBlock)
        ensures
            r.wf(),
            r.width() == n_vars,
            r@.len() == 0,
    {
        assert(0 * n_vars == 0) by (nonlinear_arith);
        RowBlock { n_vars, n_rows: 0, data: Vec::new() }
    }

    pub fn n_vars(&self) -> (n: usize)
        ensures
            n == self.width(),
    {
        self.n_vars
    }

    pub fn n_rows(&self) -> (n: usize)
        ensures
            n == self@.len(),
    {
        self.n_rows
    }

    pub fn is_empty(&self) -> (r: bool)
        ensures
            r == (self@.len() == 0),
    {
        self.n_rows == 0
    }

    /// Row `i`.
    pub fn row(&self, i: usize) -> (r: &[u32])
        requires
            self.wf(),
            i < self@.len(),
        ensures
            r@ == self@[i as int],
            r@.len() == self.width(),
    {
        let total: usize = self.data.len();
        proof {
            lemma_bounds(i as int, self.n_rows as int, self.n_vars as int);
        }
        let s: usize = i * self.n_vars;
        slice_subrange(self.data.as_slice(), s, s + self.n_vars)
    }

    /// A walk over the rows.
    pub fn rows(&self) -> (r: RowIter<'_>)
        requires
            self.wf(),
        ensures
            r.wf(),
            r.rest() == self@,
    {
        assert(self@.skip(0) =~= self@);
        RowIter { block: self, i: 0 }
    }

    /// Appends a row.
    pub fn push_row(&mut self, row: &[u32])
        requires
            old(self).wf(),
            row@.len() == old(self).width(),
            old(self)@.len() < usize::MAX,
        ensures
            final(self).wf(),
            final(self).width() == old(self).width(),
            final(self)@ == old(self)@.push(row@),
    {
        let ghost d0 = self.data@;
        self.data.extend_from_slice(row);
        self.n_rows = self.n_rows + 1;
        proof {
            assert(self.data@ =~= d0 + row@);
            lemma_one_row(row@, self.n_vars as nat);
            lemma_joined(d0, (self.n_rows - 1) as nat, row@, 1, self.n_vars as nat);
            assert(self@ =~= old(self)@.push(row@));
        }
    }

    /// Appends `prefix`, continued with `fill` up to the width.
    pub fn push_row_padded(&mut self, prefix: &[u32], fill: u32)
        requires
            old(self).wf(),
            prefix@.len() <= old(self).width(),
            old(self)@.len() < usize::MAX,
        ensures
            final(self).wf(),
            final(self).width() == old(self).width(),
            final(self)@ == old(self)@.push(padded(prefix@, fill, old(self).width())),
    {
        let mut row: Vec<u32> = slice_to_vec(prefix);
        let n: usize = self.n_vars;
        while row.len() < n
            invariant
                prefix@.len() <= row@.len() <= n,
                row@ == padded(prefix@, fill, row@.len()),
            decreases n - row@.len(),
        {
            row.push(fill);
            assert(row@ =~= padded(prefix@, fill, row@.len()));
        }
        self.push_row(row.as_slice());
    }

    /// Appends `prefix` followed by `suffix`.
    pub fn push_row_concat(&mut self, prefix: &[u32], suffix: &[u32])
        requires
            old(self).wf(),
            prefix@.len() + suffix@.len() == old(self).width(),
            old(self)@.len() < usize::MAX,
        ensures
            final(self).wf(),
            final(self).width() == old(self).width(),
            final(self)@ == old(self)@.push(prefix@ + suffix@),
    {
        let ghost d0 = self.data@;
        self.data.extend_from_slice(prefix);
        self.data.extend_from_slice(suffix);
        self.n_rows = self.n_rows + 1;
        proof {
            let row = prefix@ + suffix@;
            assert(self.data@ =~= d0 + row);
            lemma_one_row(row, self.n_vars as nat);
            lemma_joined(d0, (self.n_rows - 1) as nat, row, 1, self.n_vars as nat);
            assert(self@ =~= old(self)@.push(row));
        }
    }

    /// Appends the rows of another block of the same width.
    pub fn append(&mut self, other: &RowBlock)
        requires
            old(self).wf(),
            other.wf(),
            old(self).width() == other.width(),
            old(self)@.len() + other@.len() <= usize::MAX,
        ensures
            final(self).wf(),
            final(self).width() == old(self).width(),
            final(self)@ == old(self)@ + other@,
    {
        let ghost d0 = self.data@;
        let ghost n0 = self.n_rows as nat;
        self.data.extend_from_slice(other.data.as_slice());
        self.n_rows = self.n_rows + other.n_rows;
        proof {
            assert(self.data@ =~= d0 + other.data@);
            lemma_joined(d0, n0, other.data@, other.n_rows as nat, self.n_vars as nat);
        }
    }

    /// The block with only the columns `indices`, in the given order.
    pub fn project(&self, indices: &[usize]) -> (out: RowBlock)
        requires
            self.wf(),
            forall|k: int| 0 <= k < indices@.len() ==> (#[trigger] indices@[k]) < self.width(),
        ensures
            out.wf(),
            out.width() == indices@.len(),
            out@ == self@.map_values(|r: Seq<u32>| picked(r, indices@)),
    {
        let mut out: RowBlock = RowBlock::new(indices.len());
        let mut i: usize = 0;
        let ghost want = self@.map_values(|r: Seq<u32>| picked(r, indices@));
        while i < self.n_rows
            invariant
                self.wf(),
                forall|k: int| 0 <= k < indices@.len() ==> (#[trigger] indices@[k]) < self.width(),
                i <= self.n_rows,
                want == self@.map_values(|r: Seq<u32>| picked(r, indices@)),
                out.wf(),
                out.width() == indices@.len(),
                out@ == want.take(i as int),
                self@.len() == self.n_rows,
            decreases self.n_rows - i,
        {
            let r: &[u32] = self.row(i);
            let mut cols: Vec<u32> = Vec::new();
            let mut k: usize = 0;
            while k < indices.len()
                invariant
                    k <= indices@.len(),
                    forall|k: int| 0 <= k < indices@.len() ==> (#[trigger] indices@[k]) < self.width(),
                    r@.len() == self.width(),
                    cols@ == picked(r@, indices@).take(k as int),
                decreases indices@.len() - k,
            {
                cols.push(r[indices[k]]);
                k += 1;
                assert(cols@ =~= picked(r@, indices@).take(k as int));
            }
            assert(cols@ =~= picked(r@, indices@));
            out.push_row(cols.as_slice());
            i += 1;
            assert(out@ =~= want.take(i as int));
        }
        assert(want.take(i as int) =~= want);
        out
    }

    /// The row numbers, sorted by row; equal rows stay in their order.
    fn sorted_indices(&self) -> (idx: Vec<usize>)
        requires
            self.wf(),
        ensures
            idx@.len() == self@.len(),
            crate::order::ranked(&RowRank { block: self }, idx@),
            forall|i: int| 0 <= i < idx@.len() ==> (#[trigger] idx@[i]) < self@.len(),
            forall|i: usize| i < self@.len() ==> #[trigger] idx@.contains(i),
            idx@.no_duplicates(),
    {
        let mut all: Vec<usize> = Vec::new();
        let mut i: usize = 0;
        while i < self.n_rows
            invariant
                i <= self.n_rows,
                all@.len() == i,
                forall|k: int| 0 <= k < i ==> #[trigger] all@[k] == k,
            decreases self.n_rows - i,
        {
            all.push(i);
            i += 1;
        }
        let rank: RowRank<'_> = RowRank { block: self };
        let idx: Vec<usize> = merge_sort(&rank, all.as_slice());
        proof {
            crate::order::lemma_same_members(idx@, all@);
            assert forall|i: int| 0 <= i < idx@.len() implies (#[trigger] idx@[i]) < self@.len() by {
                assert(idx@.contains(idx@[i]));
                let k = choose|k: int| 0 <= k < all@.len() && all@[k] == idx@[i];
            }
            assert forall|i: usize| i < self@.len() implies #[trigger] idx@.contains(i) by {
                assert(all@[i as int] == i);
                assert(all@.contains(i));
            }
            all@.lemma_multiset_has_no_duplicates();
            idx@.lemma_multiset_has_no_duplicates_conv();
        }
        idx
    }

    /// Sorts the rows and drops repetitions.
    pub fn sort_distinct(&mut self)
        requires
            old(self).wf(),
        ensures
            final(self).wf(),
            final(self).width() == old(self).width(),
            increasing_rows(final(self)@),
            forall|r: Seq<u32>| #[trigger] final(self)@.contains(r) <==> old(self)@.contains(r),
            final(self)@ == rows_in_order(old(self)@),
    {
        let idx: Vec<usize> = self.sorted_indices();
        let mut out: RowBlock = RowBlock::new(self.n_vars);
        let mut i: usize = 0;
        let ghost order = Seq::new(idx@.len(), |k: int| self@[idx@[k] as int]);
        while i < idx.len()
            invariant
                self.wf(),
                i <= idx@.len(),
                idx@.len() == self@.len(),
                crate::order::ranked(&RowRank { block: self }, idx@),
                forall|i: int| 0 <= i < idx@.len() ==> (#[trigger] idx@[i]) < self@.len(),
                order == Seq::new(idx@.len(), |k: int| self@[idx@[k] as int]),
                out.wf(),
                out.width() == self.width(),
                out@.len() <= i,
                increasing_rows(out@),
                (i == 0) == (out@.len() == 0),
                i > 0 ==> out@[out@.len() - 1] == order[i - 1],
                forall|r: Seq<u32>| #[trigger] out@.contains(r) <==> order.take(i as int).contains(r),
            decreases idx@.len() - i,
        {
            let row: &[u32] = self.row(idx[i]);
            let ghost before = out@;
            let fresh: bool = if i == 0 {
                true
            } else {
                !same_row(self.row(idx[i - 1]), row)
            };
            proof {
                assert(order[i as int] == row@);
                assert(order.take(i + 1) =~= order.take(i as int).push(row@));
                self.lemma_wf();
            }
            if fresh {
                proof {
                    if i > 0 {
                        let p = order[i - 1];
                        assert(RowRank { block: self }.leq(idx@[i - 1], idx@[i as int]));
                        assert(row_lt(p, row@));
                        assert forall|k: int| 0 <= k < before.len() implies row_lt(before[k], row@) by {
                            if k < before.len() - 1 {
                                assert(row_lt(before[k], before[before.len() - 1]));
                                out.lemma_wf();
                                lemma_row_transitive(before[k], p, row@, 0);
                            }
                        }
                    }
                }
                out.push_row(row);
            }
            proof {
                assert forall|r: Seq<u32>| #[trigger] out@.contains(r) <==> order.take(i + 1).contains(
                    r,
                ) by {
                    lemma_push_row(order.take(i as int), row@, r);
                    if fresh {
                        lemma_push_row(before, row@, r);
                    } else {
                        assert(before[before.len() - 1] == row@);
                    }
                }
            }
            i += 1;
        }
        proof {
            assert(order.take(i as int) =~= order);
            assert forall|r: Seq<u32>| #[trigger] out@.contains(r) <==> self@.contains(r) by {
                if order.contains(r) {
                    let k = choose|k: int| 0 <= k < order.len() && order[k] == r;
                    assert(self@[idx@[k] as int] == r);
                }
                if self@.contains(r) {
                    let k = choose|k: int| 0 <= k < self@.len() && self@[k] == r;
                    assert(idx@.contains(k as usize));
                    let m = choose|m: int| 0 <= m < idx@.len() && idx@[m] == k as usize;
                    assert(order[m] == r);
                }
            }
            lemma_increasing_rows_unique(out@, rows_in_order(self@));
        }
        *self = out;
    }

    /// Drops repetitions; each row stays where it first occurs.
    pub fn dedup_preserving_order(&mut self)
        requires
            old(self).wf(),
        ensures
            final(self).wf(),
            final(self).width() == old(self).width(),
            final(self)@ == first_rows(old(self)@),
    {
        let idx: Vec<usize> = self.sorted_indices();
        let n: usize = self.n_rows;
        let mut keep: Vec<bool> = Vec::new();
        let mut i: usize = 0;
        while i < n
            invariant
                i <= n,
                keep@.len() == i,
            decreases n - i,
        {
            keep.push(false);
            i += 1;
        }
        i = 0;
        while i < n
            invariant
                self.wf(),
                i <= n,
                n == self@.len(),
                keep@.len() == n,
                idx@.len() == n,
                crate::order::ranked(&RowRank { block: self }, idx@),
                forall|i: int| 0 <= i < idx@.len() ==> (#[trigger] idx@[i]) < self@.len(),
                forall|i: usize| i < self@.len() ==> #[trigger] idx@.contains(i),
                idx@.no_duplicates(),
                forall|k: int|
                    0 <= k < i ==> keep@[#[trigger] idx@[k] as int] == first_at(self@, idx@[k] as int),
            decreases n - i,
        {
            let at: usize = idx[i];
            let fresh: bool = if i == 0 {
                true
            } else {
                !same_row(self.row(idx[i - 1]), self.row(at))
            };
            proof {
                self.lemma_sorted_first(idx@, i as int);
            }
            keep.set(at, fresh);
            i += 1;
        }
        proof {
            assert forall|k: int| 0 <= k < n implies keep@[k] == first_at(self@, k) by {
                assert(idx@.contains(k as usize));
                let m = choose|m: int| 0 <= m < idx@.len() && idx@[m] == k as usize;
            }
        }
        let mut out: RowBlock = RowBlock::new(self.n_vars);
        i = 0;
        assert(self@.take(0) =~= Seq::<Seq<u32>>::empty());
        assert(out@ =~= first_rows(self@.take(0)));
        while i < n
            invariant
                self.wf(),
                i <= n,
                n == self@.len(),
                keep@.len() == n,
                forall|k: int| 0 <= k < n ==> #[trigger] keep@[k] == first_at(self@, k),
                out.wf(),
                out.width() == self.width(),
                out@.len() <= i,
                out@ == first_rows(self@.take(i as int)),
            decreases n - i,
        {
            let row: &[u32] = self.row(i);
            proof {
                assert(self@.take(i + 1).drop_last() =~= self@.take(i as int));
                assert(self@.take(i + 1).last() == row@);
                assert(keep@[i as int] == first_at(self@, i as int));
            }
            if keep[i] {
                out.push_row(row);
            }
            i += 1;
        }
        assert(self@.take(n as int) =~= self@);
        *self = out;
    }

    /// In sorted order a row occurs for the first time exactly where it differs
    /// from the row before it.
    proof fn lemma_sorted_first(&self, idx: Seq<usize>, i: int)
        requires
            self.wf(),
            idx.len() == self@.len(),
            0 <= i < idx.len(),
            crate::order::ranked(&RowRank { block: self }, idx),
            forall|i: int| 0 <= i < idx.len() ==> (#[trigger] idx[i]) < self@.len(),
            forall|i: usize| i < self@.len() ==> #[trigger] idx.contains(i),
            idx.no_duplicates(),
        ensures
            first_at(self@, idx[i] as int) == (i == 0 || self@[idx[i - 1] as int] != self@[idx[i] as int]),
    {
        let rank = RowRank { block: self };
        let at = idx[i];
        let row = self@[at as int];
        self.lemma_wf();
        if i > 0 && self@[idx[i - 1] as int] == row {
            assert(rank.leq(idx[i - 1], idx[i]));
            lemma_row_irreflexive(row, 0);
            assert(idx[i - 1] < at);
            assert(self@.take(at as int)[idx[i - 1] as int] == row);
        } else if self@.take(at as int).contains(row) {
            let k = choose|k: int| 0 <= k < at && self@.take(at as int)[k] == row;
            assert(self@[k] == row);
            assert(idx.contains(k as usize));
            let m = choose|m: int| 0 <= m < idx.len() && idx[m] == k as usize;
            lemma_row_irreflexive(row, 0);
            if m > i {
                assert(rank.leq(idx[i], idx[m]));
            } else {
                assert(m < i);
                let p = self@[idx[i - 1] as int];
                if m < i - 1 {
                    assert(rank.leq(idx[m], idx[i - 1]));
                }
                assert(rank.leq(idx[i - 1], idx[i]));
                if row_lt(row, p) && row_lt(p, row) {
                    lemma_row_transitive(row, p, row, 0);
                }
            }
        }
    }

    /// Keeps the rows from `offset` on, at most `limit` of them.
    pub fn apply_offset_limit(&mut self, offset: usize, limit: Option<usize>)
        requires
            old(self).wf(),
        ensures
            final(self).wf(),
            final(self).width() == old(self).width(),
            final(self)@ == sliced(old(self)@, offset as nat, limit),
    {
        let start: usize = if offset <= self.n_rows {
            offset
        } else {
            self.n_rows
        };
        let end: usize = match limit {
            Some(l) => if l <= self.n_rows - start {
                start + l
            } else {
                self.n_rows
            },
            None => self.n_rows,
        };
        let mut out: RowBlock = RowBlock::new(self.n_vars);
        let mut i: usize = start;
        while i < end
            invariant
                self.wf(),
                start <= i <= end,
                end <= self@.len(),
                out.wf(),
                out.width() == self.width(),
                out@ == self@.subrange(start as int, i as int),
            decreases end - i,
        {
            out.push_row(self.row(i));
            i += 1;
            assert(out@ =~= self@.subrange(start as int, i as int));
        }
        *self = out;
    }
}

/// Row `i` does not occur earlier.
pub open spec fn first_at(s: Seq<Seq<u32>>, i: int) -> bool {
    !s.take(i).contains(s[i])
}

/// Whether two rows are equal.
pub fn same_row(a: &[u32], b: &[u32]) -> (r: bool)
    requires
        a@.len() == b@.len(),
    ensures
        r == (a@ == b@),
{
    let mut i: usize = 0;
    while i < a.len()
        invariant
            a@.len() == b@.len(),
            i <= a@.len(),
            forall|k: int| 0 <= k < i ==> a@[k] == b@[k],
        decreases a@.len() - i,
    {
        if a[i] != b[i] {
            return false;
        }
        i += 1;
    }
    assert(a@ =~= b@);
    true
}

/// The order of row numbers by row, then by number.
struct RowRank<'a> {
    block: &'a RowBlock,
}

impl<'a> Rank<usize> for RowRank<'a> {
    closed spec fn leq(&self, a: usize, b: usize) -> bool {
        let ra = self.block@[a as int];
        let rb = self.block@[b as int];
        row_lt(ra, rb) || (ra == rb && a <= b)
    }

    closed spec fn covers(&self, a: usize) -> bool {
        self.block.wf() && a < self.block@.len()
    }

    proof fn total(&self, a: usize, b: usize) {
        let ra = self.block@[a as int];
        let rb = self.block@[b as int];
        self.block.lemma_wf();
        if !row_lt(ra, rb) && !row_lt(rb, ra) {
            lemma_row_total(ra, rb, 0);
            assert(ra =~= rb);
        }
    }

    proof fn transitive(&self, a: usize, b: usize, c: usize) {
        let ra = self.block@[a as int];
        let rb = self.block@[b as int];
        let rc = self.block@[c as int];
        self.block.lemma_wf();
        if row_lt(ra, rb) && row_lt(rb, rc) {
            lemma_row_transitive(ra, rb, rc, 0);
        }
    }

    fn le(&self, a: &usize, b: &usize) -> (r: bool) {
        let x: &[u32] = self.block.row(*a);
        let y: &[u32] = self.block.row(*b);
        let n: usize = x.len();
        let mut i: usize = 0;
        while i < n
            invariant
                n == x@.len(),
                x@.len() == y@.len(),
                i <= n,
                forall|k: int| 0 <= k < i ==> x@[k] == y@[k],
                row_lt(x@, y@) == row_lt_from(x@, y@, i as int),
                self.block@[*a as int] == x@,
                self.block@[*b as int] == y@,
            decreases n - i,
        {
            if x[i] < y[i] {
                return true;
            }
            if x[i] > y[i] {
                return false;
            }
            i += 1;
        }
        assert(x@ =~= y@);
        *a <= *b
    }
}

/// A walk over the rows of a block.
pub struct RowIter<'a> {
    block: &'a RowBlock,
    i: usize,
}

impl<'a> RowIter<'a> {
    pub closed spec fn wf(&self) -> bool {
        self.block.wf() && self.i <= self.block@.len()
    }

    /// The rows still to come.
    pub closed spec fn rest(&self) -> Seq<Seq<u32>> {
        self.block@.skip(self.i as int)
    }

    /// The next row, if there is one.
    pub fn next(&mut self) -> (r: Option<&'a [u32]>)
        requires
            old(self).wf(),
        ensures
            final(self).wf(),
            match r {
                Some(row) => old(self).rest().len() > 0 && row@ == old(self).rest()[0]
                    && final(self).rest() == old(self).rest().skip(1),
                None => old(self).rest().len() == 0 && final(self).rest().len() == 0,
            },
    {
        if self.i >= self.block.n_rows() {
            return None;
        }
        let r: &'a [u32] = self.block.row(self.i);
        self.i = self.i + 1;
        assert(self.rest() =~= old(self).rest().skip(1));
        Some(r)
    }
}

} // verus!
