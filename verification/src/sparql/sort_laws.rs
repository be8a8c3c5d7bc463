//! What the order of solutions is.

use crate::bytes::Side;
use crate::sparql::algebra::OrderByView;
use crate::sparql::expr::{ev, Scope};
use crate::sparql::numbers::{Replies, ONE_BITS};
use crate::sparql::sorting::{
    descending, is_order, key_of, key_side, keys_side, lemma_order_exists, lemma_order_unique,
    ordered_rows, row_keys, row_leq, table_keys,
};
use crate::sparql::value_laws::{law_number_order, number_precedes};
use crate::sparql::values::Val;
use crate::text::{law_text_order, precedes};
use vstd::prelude::*;

verus! {

/// The kinds of values in the order of solutions: nothing, blank nodes, numbers with
/// truth values, IRIs, other literals.
pub open spec fn kind_place(v: Option<Val>) -> int {
    match v {
        None => 0,
        Some(Val::Blank(_)) => 1,
        Some(Val::Num(_)) => 2,
        Some(Val::Bool(_)) => 2,
        Some(Val::Iri(_)) => 3,
        Some(Val::Str(_)) => 4,
        Some(Val::Lang(_, _)) => 4,
        Some(Val::Typed(_, _)) => 4,
    }
}

/// The characters of a value that is ordered by them.
pub open spec fn characters(v: Val) -> Seq<char> {
    match v {
        Val::Blank(s) => s,
        Val::Iri(s) => s,
        Val::Str(s) => s,
        Val::Lang(s, _) => s,
        Val::Typed(s, _) => s,
        _ => Seq::empty(),
    }
}

/// The number of a value that is ordered by it: true is one, false is zero.
pub open spec fn bits(v: Val) -> u64 {
    match v {
        Val::Num(n) => n,
        Val::Bool(true) => ONE_BITS,
        _ => 0,
    }
}

/// Value `x` comes before value `y` in ascending order: by kind, then numbers by value
/// and texts by code points.
pub open spec fn comes_before(x: Option<Val>, y: Option<Val>) -> bool {
    if kind_place(x) != kind_place(y) {
        kind_place(x) < kind_place(y)
    } else if kind_place(x) == 0 {
        false
    } else if kind_place(x) == 2 {
        number_precedes(bits(x->0), bits(y->0))
    } else {
        precedes(characters(x->0), characters(y->0))
    }
}

/// Values are put in order by their kind, then numbers by value and texts by code points.
pub proof fn law_value_order(x: Option<Val>, y: Option<Val>)
    ensures
        key_side(key_of(x), key_of(y)) == Side::Before <==> comes_before(x, y),
        key_side(key_of(x), key_of(y)) == Side::After <==> comes_before(y, x),
        key_side(key_of(x), key_of(y)) == Side::Same <==> !comes_before(x, y) && !comes_before(y, x),
{
    if x is Some && y is Some {
        law_text_order(characters(x->0), characters(y->0));
        law_number_order(bits(x->0), bits(y->0));
        law_number_order(bits(y->0), bits(x->0));
    }
}

/// What rows are sorted by: the criteria, and what their expressions are evaluated
/// against.
pub struct Criteria {
    pub num: Replies,
    pub keys: Seq<Seq<char>>,
    pub vars: Seq<Seq<char>>,
    pub orders: Seq<OrderByView>,
}

impl Criteria {
    /// The value of criterion `k` in a row.
    pub open spec fn value(self, row: Seq<u32>, k: int) -> Option<Val> {
        ev(self.orders[k].expr, Scope { num: self.num, keys: self.keys, vars: self.vars, row })
    }

    /// Under criterion `k`, row `a` must come before row `b`.
    #[verifier::opaque]
    pub open spec fn puts_before(self, k: int, a: Seq<u32>, b: Seq<u32>) -> bool {
        if self.orders[k].descending {
            comes_before(self.value(b, k), self.value(a, k))
        } else {
            comes_before(self.value(a, k), self.value(b, k))
        }
    }

    /// Criterion `k` does not tell the rows apart.
    pub open spec fn ties(self, k: int, a: Seq<u32>, b: Seq<u32>) -> bool {
        !self.puts_before(k, a, b) && !self.puts_before(k, b, a)
    }

    /// Criterion `k` is the first that tells the rows apart, and it puts `a` first.
    pub open spec fn decides(self, k: int, a: Seq<u32>, b: Seq<u32>) -> bool {
        &&& 0 <= k < self.orders.len()
        &&& self.puts_before(k, a, b)
        &&& forall|m: int| 0 <= m < k ==> #[trigger] self.ties(m, a, b)
    }

    /// No criterion tells the rows apart.
    pub open spec fn all_tie(self, a: Seq<u32>, b: Seq<u32>) -> bool {
        forall|m: int| 0 <= m < self.orders.len() ==> #[trigger] self.ties(m, a, b)
    }

    /// Some criterion puts `a` before `b`, and none before it tells them apart.
    pub open spec fn ranks(self, a: Seq<u32>, b: Seq<u32>) -> bool {
        exists|k: int| #[trigger] self.decides(k, a, b)
    }

    spec fn side(self, a: Seq<u32>, b: Seq<u32>, k: int) -> Side {
        keys_side(
            descending(self.orders),
            row_keys(self.orders, Scope { num: self.num, keys: self.keys, vars: self.vars, row: a }),
            row_keys(self.orders, Scope { num: self.num, keys: self.keys, vars: self.vars, row: b }),
            k,
        )
    }

    proof fn lemma_step(self, a: Seq<u32>, b: Seq<u32>, k: int)
        requires
            0 <= k < self.orders.len(),
        ensures
            !(self.puts_before(k, a, b) && self.puts_before(k, b, a)),
            self.ties(k, a, b) ==> self.side(a, b, k) == self.side(a, b, k + 1),
            self.puts_before(k, a, b) ==> self.side(a, b, k) == Side::Before,
            self.puts_before(k, b, a) ==> self.side(a, b, k) == Side::After,
    {
        reveal(Criteria::puts_before);
        let x = self.value(a, k);
        let y = self.value(b, k);
        law_value_order(x, y);
        assert(descending(self.orders)[k] == self.orders[k].descending);
    }

    proof fn lemma_side(self, a: Seq<u32>, b: Seq<u32>, k: int)
        requires
            0 <= k <= self.orders.len(),
            forall|m: int| 0 <= m < k ==> #[trigger] self.ties(m, a, b),
        ensures
            self.side(a, b, k) == Side::Before ==> self.ranks(a, b),
            self.side(a, b, k) == Side::After ==> self.ranks(b, a),
            self.side(a, b, k) == Side::Same ==> self.all_tie(a, b),
        decreases self.orders.len() - k,
    {
        if k < self.orders.len() {
            self.lemma_step(a, b, k);
            if self.ties(k, a, b) {
                self.lemma_side(a, b, k + 1);
            } else if self.puts_before(k, a, b) {
                assert(self.decides(k, a, b));
            } else {
                assert forall|m: int| 0 <= m < k implies #[trigger] self.ties(m, b, a) by {
                    assert(self.ties(m, a, b));
                }
                assert(self.decides(k, b, a));
            }
        }
    }
}

/// The places are all places below `n`, each once.
pub open spec fn rearranges(places: Seq<int>, n: nat) -> bool {
    &&& places.len() == n
    &&& places.no_duplicates()
    &&& forall|i: int| 0 <= i < n ==> 0 <= #[trigger] places[i] < n
    &&& forall|k: int| 0 <= k < n ==> #[trigger] places.contains(k)
}

/// Of two rows, `i` before `j`, the criteria put the first before the second, or they do
/// not tell them apart and the first came before the second already.
pub open spec fn rightly_placed(
    c: Criteria,
    rows: Seq<Seq<u32>>,
    out: Seq<Seq<u32>>,
    places: Seq<int>,
    i: int,
    j: int,
) -> bool {
    &&& out[i] == rows[places[i]]
    &&& out[j] == rows[places[j]]
    &&& c.ranks(out[i], out[j]) || (c.all_tie(out[i], out[j]) && places[i] < places[j])
}

/// The rows are those of `rows`, rearranged as the criteria want.
pub open spec fn is_sorted(c: Criteria, rows: Seq<Seq<u32>>, out: Seq<Seq<u32>>, places: Seq<int>) -> bool {
    &&& out.len() == rows.len()
    &&& rearranges(places, rows.len())
    &&& forall|i: int| 0 <= i < rows.len() ==> #[trigger] out[i] == rows[places[i]]
    &&& forall|i: int, j: int|
        0 <= i < j < rows.len() ==> #[trigger] rightly_placed(c, rows, out, places, i, j)
}

/// Sorted rows are the rows themselves, in another arrangement: of two rows the earlier one
/// is the one that the first criterion which tells them apart puts first, whether that is
/// ascending or descending, and rows that no criterion tells apart stay in their order.
pub proof fn law_order_by(c: Criteria, rows: Seq<Seq<u32>>)
    requires
        rows.len() <= usize::MAX,
    ensures
        exists|places: Seq<int>| #[trigger]
            is_sorted(c, rows, ordered_rows(c.num, c.keys, c.vars, rows, c.orders), places),
{
    let desc = descending(c.orders);
    let all = table_keys(c.num, c.keys, c.vars, rows, c.orders);
    let out = ordered_rows(c.num, c.keys, c.vars, rows, c.orders);
    let n = rows.len();
    let idx = lemma_order_exists(n, desc, all);
    let chosen = choose|x: Seq<usize>| is_order(x, n, desc, all);
    lemma_order_unique(chosen, idx, n, desc, all);
    let places = Seq::new(n, |i: int| idx[i] as int);
    assert(rearranges(places, n)) by {
        assert forall|i: int, j: int| 0 <= i < n && 0 <= j < n && i != j implies places[i] != places[j] by {
            assert(idx[i] != idx[j]);
        }
        assert forall|k: int| 0 <= k < n implies #[trigger] places.contains(k) by {
            assert(idx.contains(k as usize));
            let i = choose|i: int| 0 <= i < idx.len() && idx[i] == k as usize;
            assert(places[i] == k);
        }
    }
    assert forall|i: int, j: int| 0 <= i < j < n implies #[trigger] rightly_placed(c, rows, out, places, i, j) by {
        let a = out[i];
        let b = out[j];
        assert(row_leq(desc, all, idx[i], idx[j]));
        assert(keys_side(desc, all[idx[i] as int], all[idx[j] as int], 0) == c.side(a, b, 0));
        c.lemma_side(a, b, 0);
        assert(idx[i] != idx[j]);
    }
    assert(is_sorted(c, rows, out, places));
}

/// In an answer sorted by texts, ascending, no text comes before an earlier one by code
/// points; descending, none comes after an earlier one.
pub proof fn law_texts_sorted(c: Criteria, rows: Seq<Seq<u32>>, i: int, j: int, s: Seq<char>, t: Seq<char>)
    requires
        rows.len() <= usize::MAX,
        c.orders.len() > 0,
        0 <= i < j < rows.len(),
        c.value(ordered_rows(c.num, c.keys, c.vars, rows, c.orders)[i], 0) == Some(Val::Str(s)),
        c.value(ordered_rows(c.num, c.keys, c.vars, rows, c.orders)[j], 0) == Some(Val::Str(t)),
    ensures
        !c.orders[0].descending ==> !precedes(t, s),
        c.orders[0].descending ==> !precedes(s, t),
{
    let out = ordered_rows(c.num, c.keys, c.vars, rows, c.orders);
    law_order_by(c, rows);
    let places = choose|places: Seq<int>| #[trigger] is_sorted(c, rows, out, places);
    assert(rightly_placed(c, rows, out, places, i, j));
    c.lemma_step(out[i], out[j], 0);
    if c.ranks(out[i], out[j]) {
        let k = choose|k: int| #[trigger] c.decides(k, out[i], out[j]);
        if k > 0 {
            assert(c.ties(0, out[i], out[j]));
        }
    } else {
        assert(c.ties(0, out[i], out[j]));
    }
    reveal(Criteria::puts_before);
}

} // verus!
