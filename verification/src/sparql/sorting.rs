//! The order of solutions.

use crate::bytes::Side;
use crate::hypertrie::dictionary::Dictionary;
use crate::hypertrie::rows::RowBlock;
use crate::order::{merge_sort, Rank};
use crate::sparql::algebra::{orders_view, texts, OrderBy, OrderByView};
use crate::sparql::expr::{ev, eval, scope_of, Scope};
use crate::sparql::numbers::{
    flag_number, numbers_ok, rank_of, replies, total_rank, NumberCall, NumberReply, Replies,
    ONE_BITS,
};
use crate::sparql::values::{opt_val, Val, Value};
use crate::text::{compare_text, text_side};
use vstd::prelude::*;

verus! {

/// The place of a value in the order of solutions: unbound first, then blank
/// nodes, numbers, IRIs and other literals.
#[derive(Debug)]
pub enum OrderKey {
    Unbound,
    Blank(String),
    Num(u64),
    Iri(String),
    Str(String),
}

#[verifier::ext_equal]
pub enum KeyView {
    Unbound,
    Blank(Seq<char>),
    Num(u64),
    Iri(Seq<char>),
    Str(Seq<char>),
}

impl View for OrderKey {
    type V = KeyView;

    open spec fn view(&self) -> KeyView {
        match self {
            OrderKey::Unbound => KeyView::Unbound,
            OrderKey::Blank(s) => KeyView::Blank(s@),
            OrderKey::Num(n) => KeyView::Num(*n),
            OrderKey::Iri(s) => KeyView::Iri(s@),
            OrderKey::Str(s) => KeyView::Str(s@),
        }
    }
}

/// The key of a value; errors count as unbound.
pub open spec fn key_of(v: Option<Val>) -> KeyView {
    match v {
        None => KeyView::Unbound,
        Some(Val::Num(n)) => KeyView::Num(n),
        Some(Val::Bool(b)) => KeyView::Num(flag_number(b)),
        Some(Val::Iri(s)) => KeyView::Iri(s),
        Some(Val::Blank(s)) => KeyView::Blank(s),
        Some(Val::Str(s)) => KeyView::Str(s),
        Some(Val::Lang(s, _)) => KeyView::Str(s),
        Some(Val::Typed(s, _)) => KeyView::Str(s),
    }
}

pub fn order_key(v: Option<Value>) -> (k: OrderKey)
    ensures
        k@ == key_of(opt_val(v)),
{
    match v {
        None => OrderKey::Unbound,
        Some(Value::Num(n)) => OrderKey::Num(n),
        Some(Value::Bool(b)) => OrderKey::Num(if b {
            ONE_BITS
        } else {
            0
        }),
        Some(Value::Iri(s)) => OrderKey::Iri(s),
        Some(Value::Blank(s)) => OrderKey::Blank(s),
        Some(Value::Str(s)) => OrderKey::Str(s),
        Some(Value::Lang(s, _)) => OrderKey::Str(s),
        Some(Value::Typed(s, _)) => OrderKey::Str(s),
    }
}

/// The kinds of keys, in order.
pub open spec fn kind_rank(k: KeyView) -> int {
    match k {
        KeyView::Unbound => 0,
        KeyView::Blank(_) => 1,
        KeyView::Num(_) => 2,
        KeyView::Iri(_) => 3,
        KeyView::Str(_) => 4,
    }
}

pub open spec fn int_side(a: int, b: int) -> Side {
    if a < b {
        Side::Before
    } else if a == b {
        Side::Same
    } else {
        Side::After
    }
}

/// How two keys stand to each other.
pub open spec fn key_side(a: KeyView, b: KeyView) -> Side {
    match (a, b) {
        (KeyView::Num(x), KeyView::Num(y)) => int_side(total_rank(x) as int, total_rank(y) as int),
        (KeyView::Blank(x), KeyView::Blank(y)) => text_side(x, y),
        (KeyView::Iri(x), KeyView::Iri(y)) => text_side(x, y),
        (KeyView::Str(x), KeyView::Str(y)) => text_side(x, y),
        _ => int_side(kind_rank(a), kind_rank(b)),
    }
}

/// The order of keys is total: keys at the same place are equal, and the order
/// is antisymmetric and transitive.
pub proof fn law_key_order(a: KeyView, b: KeyView, c: KeyView)
    ensures
        key_side(a, b) == Side::Same <==> a == b,
        key_side(a, b) == Side::Before <==> key_side(b, a) == Side::After,
        key_side(a, b) == Side::Before && key_side(b, c) == Side::Before ==> key_side(a, c)
            == Side::Before,
{
    match (a, b) {
        (KeyView::Blank(x), KeyView::Blank(y)) => {
            crate::text::lemma_text_side(x, y);
            if let KeyView::Blank(z) = c {
                if text_side(x, y) == Side::Before && text_side(y, z) == Side::Before {
                    crate::text::lemma_text_side_transitive(x, y, z);
                }
            }
        },
        (KeyView::Iri(x), KeyView::Iri(y)) => {
            crate::text::lemma_text_side(x, y);
            if let KeyView::Iri(z) = c {
                if text_side(x, y) == Side::Before && text_side(y, z) == Side::Before {
                    crate::text::lemma_text_side_transitive(x, y, z);
                }
            }
        },
        (KeyView::Str(x), KeyView::Str(y)) => {
            crate::text::lemma_text_side(x, y);
            if let KeyView::Str(z) = c {
                if text_side(x, y) == Side::Before && text_side(y, z) == Side::Before {
                    crate::text::lemma_text_side_transitive(x, y, z);
                }
            }
        },
        _ => {},
    }
}

fn compare_u64(a: u64, b: u64) -> (r: Side)
    ensures
        r == int_side(a as int, b as int),
{
    if a < b {
        Side::Before
    } else if a == b {
        Side::Same
    } else {
        Side::After
    }
}

fn rank_kind(k: &OrderKey) -> (r: u64)
    ensures
        r == kind_rank(k@),
{
    match k {
        OrderKey::Unbound => 0,
        OrderKey::Blank(_) => 1,
        OrderKey::Num(_) => 2,
        OrderKey::Iri(_) => 3,
        OrderKey::Str(_) => 4,
    }
}

/// Compares two keys.
pub fn compare_keys(a: &OrderKey, b: &OrderKey) -> (r: Side)
    ensures
        r == key_side(a@, b@),
{
    match (a, b) {
        (OrderKey::Num(x), OrderKey::Num(y)) => compare_u64(rank_of(*x), rank_of(*y)),
        (OrderKey::Blank(x), OrderKey::Blank(y)) => compare_text(x.as_str(), y.as_str()),
        (OrderKey::Iri(x), OrderKey::Iri(y)) => compare_text(x.as_str(), y.as_str()),
        (OrderKey::Str(x), OrderKey::Str(y)) => compare_text(x.as_str(), y.as_str()),
        _ => compare_u64(rank_kind(a), rank_kind(b)),
    }
}

// --- Rows ------------------------------------------------------------------------------

pub open spec fn flipped(s: Side) -> Side {
    match s {
        Side::Before => Side::After,
        Side::Same => Side::Same,
        Side::After => Side::Before,
    }
}

/// How two lists of keys stand to each other, from criterion `i` on.
pub open spec fn keys_side(desc: Seq<bool>, a: Seq<KeyView>, b: Seq<KeyView>, i: int) -> Side
    decreases desc.len() - i,
{
    if i < 0 || i >= desc.len() {
        Side::Same
    } else {
        let s = key_side(a[i], b[i]);
        if s == Side::Same {
            keys_side(desc, a, b, i + 1)
        } else if desc[i] {
            flipped(s)
        } else {
            s
        }
    }
}

proof fn lemma_keys_side(desc: Seq<bool>, a: Seq<KeyView>, b: Seq<KeyView>, c: Seq<KeyView>, i: int)
    requires
        0 <= i <= desc.len(),
    ensures
        keys_side(desc, a, b, i) == Side::Before <==> keys_side(desc, b, a, i) == Side::After,
        keys_side(desc, a, b, i) == Side::Same <==> keys_side(desc, b, a, i) == Side::Same,
        keys_side(desc, a, b, i) == Side::Same ==> keys_side(desc, a, c, i) == keys_side(
            desc,
            b,
            c,
            i,
        ),
        keys_side(desc, b, c, i) == Side::Same ==> keys_side(desc, a, b, i) == keys_side(
            desc,
            a,
            c,
            i,
        ),
        keys_side(desc, a, b, i) == Side::Before && keys_side(desc, b, c, i) == Side::Before
            ==> keys_side(desc, a, c, i) == Side::Before,
    decreases desc.len() - i,
{
    if i < desc.len() {
        lemma_keys_side(desc, a, b, c, i + 1);
        law_key_order(a[i], b[i], c[i]);
        law_key_order(b[i], a[i], c[i]);
        law_key_order(b[i], c[i], a[i]);
        law_key_order(a[i], c[i], b[i]);
        law_key_order(c[i], b[i], a[i]);
        law_key_order(c[i], a[i], b[i]);
    }
}

/// The keys of a row under the criteria.
pub open spec fn row_keys(orders: Seq<OrderByView>, c: Scope) -> Seq<KeyView> {
    Seq::new(orders.len(), |i: int| key_of(ev(orders[i].expr, c)))
}

pub open spec fn descending(orders: Seq<OrderByView>) -> Seq<bool> {
    Seq::new(orders.len(), |i: int| orders[i].descending)
}

/// Row `a` comes no later than row `b`: by its keys, then by its place.
pub open spec fn row_leq(desc: Seq<bool>, keys: Seq<Seq<KeyView>>, a: usize, b: usize) -> bool {
    let s = keys_side(desc, keys[a as int], keys[b as int], 0);
    s == Side::Before || (s == Side::Same && a <= b)
}

/// The row numbers below `n`, in order.
pub open spec fn is_order(idx: Seq<usize>, n: nat, desc: Seq<bool>, keys: Seq<Seq<KeyView>>) -> bool {
    &&& idx.len() == n
    &&& idx.no_duplicates()
    &&& forall|i: int| 0 <= i < n ==> (#[trigger] idx[i]) < n
    &&& forall|k: usize| k < n ==> #[trigger] idx.contains(k)
    &&& forall|i: int, j: int|
        #![trigger idx[i], idx[j]]
        0 <= i < j < n ==> row_leq(desc, keys, idx[i], idx[j])
}

/// The rows in the order of their keys; rows with equal keys stay in place.
pub open spec fn sorted_by_keys(
    rows: Seq<Seq<u32>>,
    desc: Seq<bool>,
    keys: Seq<Seq<KeyView>>,
) -> Seq<Seq<u32>> {
    let idx = choose|idx: Seq<usize>| is_order(idx, rows.len(), desc, keys);
    Seq::new(rows.len(), |i: int| rows[idx[i] as int])
}

/// There is only one order.
pub proof fn lemma_order_unique(a: Seq<usize>, b: Seq<usize>, n: nat, desc: Seq<bool>, keys: Seq<Seq<KeyView>>)
    requires
        is_order(a, n, desc, keys),
        is_order(b, n, desc, keys),
    ensures
        a == b,
{
    assert forall|i: int| 0 <= i < n implies a[i] == b[i] by {
        lemma_order_same(a, b, n, desc, keys, i);
    }
    assert(a =~= b);
}

proof fn lemma_order_same(
    a: Seq<usize>,
    b: Seq<usize>,
    n: nat,
    desc: Seq<bool>,
    keys: Seq<Seq<KeyView>>,
    i: int,
)
    requires
        is_order(a, n, desc, keys),
        is_order(b, n, desc, keys),
        0 <= i < n,
    ensures
        a[i] == b[i],
    decreases i,
{
    assert forall|k: int| 0 <= k < i implies a[k] == b[k] by {
        lemma_order_same(a, b, n, desc, keys, k);
    }
    if a[i] != b[i] {
        assert(b.contains(a[i]));
        assert(a.contains(b[i]));
        let p = choose|p: int| 0 <= p < n && b[p] == a[i];
        let q = choose|q: int| 0 <= q < n && a[q] == b[i];
        if p < i {
            assert(a[p] == b[p]);
        }
        if q < i {
            assert(a[q] == b[q]);
        }
        assert(row_leq(desc, keys, b[i], b[p]));
        assert(row_leq(desc, keys, a[i], a[q]));
        lemma_keys_side(desc, keys[a[i] as int], keys[b[i] as int], keys[a[i] as int], 0);
    }
}

/// The order of row numbers by their keys, then by number.
struct KeyRank<'a> {
    keys: &'a Vec<Vec<OrderKey>>,
    desc: &'a Vec<bool>,
}

/// The keys of a list.
pub open spec fn key_list(v: Seq<OrderKey>) -> Seq<KeyView> {
    v.map_values(|k: OrderKey| k@)
}

pub open spec fn key_lists(v: Seq<Vec<OrderKey>>) -> Seq<Seq<KeyView>> {
    v.map_values(|l: Vec<OrderKey>| key_list(l@))
}

impl<'a> Rank<usize> for KeyRank<'a> {
    closed spec fn leq(&self, a: usize, b: usize) -> bool {
        row_leq(self.desc@, key_lists(self.keys@), a, b)
    }

    closed spec fn covers(&self, a: usize) -> bool {
        a < self.keys@.len() && self.keys@[a as int]@.len() == self.desc@.len()
    }

    proof fn total(&self, a: usize, b: usize) {
        let ks = key_lists(self.keys@);
        lemma_keys_side(self.desc@, ks[a as int], ks[b as int], ks[a as int], 0);
    }

    proof fn transitive(&self, a: usize, b: usize, c: usize) {
        let ks = key_lists(self.keys@);
        lemma_keys_side(self.desc@, ks[a as int], ks[b as int], ks[c as int], 0);
    }

    fn le(&self, a: &usize, b: &usize) -> (r: bool) {
        let x: &Vec<OrderKey> = &self.keys[*a];
        let y: &Vec<OrderKey> = &self.keys[*b];
        let ghost ks = key_lists(self.keys@);
        proof {
            assert(ks[*a as int] == key_list(x@));
            assert(ks[*b as int] == key_list(y@));
        }
        let n: usize = self.desc.len();
        let mut i: usize = 0;
        while i < n
            invariant
                n == self.desc@.len(),
                x@.len() == n,
                y@.len() == n,
                i <= n,
                ks == key_lists(self.keys@),
                ks[*a as int] == key_list(x@),
                ks[*b as int] == key_list(y@),
                keys_side(self.desc@, key_list(x@), key_list(y@), 0) == keys_side(
                    self.desc@,
                    key_list(x@),
                    key_list(y@),
                    i as int,
                ),
            decreases n - i,
        {
            let s: Side = compare_keys(&x[i], &y[i]);
            assert(key_list(x@)[i as int] == x@[i as int]@);
            assert(key_list(y@)[i as int] == y@[i as int]@);
            match s {
                Side::Before => {
                    return !self.desc[i];
                },
                Side::After => {
                    return self.desc[i];
                },
                Side::Same => {},
            }
            i += 1;
        }
        *a <= *b
    }
}

/// The row numbers in the order of their keys.
fn sorted_numbers(keys: &Vec<Vec<OrderKey>>, desc: &Vec<bool>) -> (idx: Vec<usize>)
    requires
        forall|i: int| 0 <= i < keys@.len() ==> (#[trigger] keys@[i])@.len() == desc@.len(),
    ensures
        is_order(idx@, keys@.len(), desc@, key_lists(keys@)),
{
    let n: usize = keys.len();
    let mut all: Vec<usize> = Vec::new();
    let mut i: usize = 0;
    while i < n
        invariant
            i <= n,
            all@.len() == i,
            forall|k: int| 0 <= k < i ==> #[trigger] all@[k] == k,
        decreases n - i,
    {
        all.push(i);
        i += 1;
    }
    let rank: KeyRank<'_> = KeyRank { keys, desc };
    let idx: Vec<usize> = merge_sort(&rank, all.as_slice());
    proof {
        crate::order::lemma_same_members(idx@, all@);
        assert forall|i: int| 0 <= i < idx@.len() implies (#[trigger] idx@[i]) < n by {
            assert(idx@.contains(idx@[i]));
            let k = choose|k: int| 0 <= k < all@.len() && all@[k] == idx@[i];
        }
        assert forall|i: usize| i < n implies #[trigger] idx@.contains(i) by {
            assert(all@[i as int] == i);
            assert(all@.contains(i));
        }
        all@.lemma_multiset_has_no_duplicates();
        idx@.lemma_multiset_has_no_duplicates_conv();
        assert forall|i: int, j: int|
            #![trigger idx@[i], idx@[j]]
            0 <= i < j < n implies row_leq(desc@, key_lists(keys@), idx@[i], idx@[j]) by {
            assert(rank.leq(idx@[i], idx@[j]));
        }
    }
    idx
}

/// The keys of all rows.
pub open spec fn table_keys(
    num: Replies,
    dict_keys: Seq<Seq<char>>,
    vars: Seq<Seq<char>>,
    rows: Seq<Seq<u32>>,
    orders: Seq<OrderByView>,
) -> Seq<Seq<KeyView>> {
    Seq::new(
        rows.len(),
        |i: int| row_keys(orders, Scope { num, keys: dict_keys, vars, row: rows[i] }),
    )
}

/// The rows of a table in the asked order.
pub open spec fn ordered_rows(
    num: Replies,
    dict_keys: Seq<Seq<char>>,
    vars: Seq<Seq<char>>,
    rows: Seq<Seq<u32>>,
    orders: Seq<OrderByView>,
) -> Seq<Seq<u32>> {
    sorted_by_keys(rows, descending(orders), table_keys(num, dict_keys, vars, rows, orders))
}

/// Row numbers by their keys, then by number; numbers without a row come last.
spec fn wide_leq(n: nat, desc: Seq<bool>, keys: Seq<Seq<KeyView>>, a: usize, b: usize) -> bool {
    if a < n && b < n {
        row_leq(desc, keys, a, b)
    } else if a < n {
        true
    } else if b < n {
        false
    } else {
        a <= b
    }
}

/// Rows can always be brought into order.
pub proof fn lemma_order_exists(n: nat, desc: Seq<bool>, keys: Seq<Seq<KeyView>>) -> (idx: Seq<usize>)
    requires
        n <= usize::MAX,
    ensures
        is_order(idx, n, desc, keys),
{
    let leq = |a: usize, b: usize| wide_leq(n, desc, keys, a, b);
    assert(vstd::relations::total_ordering(leq)) by {
        assert forall|a: usize| #[trigger] leq(a, a) by {
            lemma_keys_side(desc, keys[a as int], keys[a as int], keys[a as int], 0);
        }
        assert forall|a: usize, b: usize| #[trigger] leq(a, b) && #[trigger] leq(b, a) implies a == b by {
            lemma_keys_side(desc, keys[a as int], keys[b as int], keys[a as int], 0);
        }
        assert forall|a: usize, b: usize, c: usize| #[trigger]
            leq(a, b) && #[trigger] leq(b, c) implies leq(a, c) by {
            lemma_keys_side(desc, keys[a as int], keys[b as int], keys[c as int], 0);
        }
        assert forall|a: usize, b: usize| #[trigger] leq(a, b) || #[trigger] leq(b, a) by {
            lemma_keys_side(desc, keys[a as int], keys[b as int], keys[a as int], 0);
        }
    }
    let range = vstd::set_lib::set_int_range(0, n as int);
    vstd::set_lib::lemma_int_range(0, n as int);
    let f = |x: int| x as usize;
    let set = range.map(f);
    range.lemma_map_finite(f);
    assert forall|x: usize| set.contains(x) <==> x < n by {
        if x < n {
            assert(range.contains(x as int));
            assert(f(x as int) == x);
        }
    }
    let idx = crate::order::lemma_sorted_list(set, leq);
    assert(idx.len() == n) by {
        idx.unique_seq_to_set();
        assert(idx.to_set() =~= set);
        vstd::set_lib::lemma_map_size(range, set, f);
    }
    assert forall|i: int| 0 <= i < n implies (#[trigger] idx[i]) < n by {
        assert(idx.contains(idx[i]));
    }
    assert forall|i: int, j: int|
        #![trigger idx[i], idx[j]]
        0 <= i < j < n implies row_leq(desc, keys, idx[i], idx[j]) by {
        assert(leq(idx[i], idx[j]));
        assert(idx[i] < n && idx[j] < n);
    }
    idx
}

/// Sorting only permutes the rows: it keeps every row and adds none.
pub proof fn law_sorting_permutes(rows: Seq<Seq<u32>>, desc: Seq<bool>, keys: Seq<Seq<KeyView>>)
    requires
        rows.len() <= usize::MAX,
    ensures
        sorted_by_keys(rows, desc, keys).len() == rows.len(),
        forall|r: Seq<u32>| #[trigger] sorted_by_keys(rows, desc, keys).contains(r) <==> rows.contains(r),
{
    let idx = lemma_order_exists(rows.len(), desc, keys);
    let chosen = choose|x: Seq<usize>| is_order(x, rows.len(), desc, keys);
    lemma_order_unique(chosen, idx, rows.len(), desc, keys);
    let s = sorted_by_keys(rows, desc, keys);
    assert forall|r: Seq<u32>| #[trigger] s.contains(r) <==> rows.contains(r) by {
        if s.contains(r) {
            let i = choose|i: int| 0 <= i < s.len() && s[i] == r;
            assert(rows[idx[i] as int] == r);
        }
        if rows.contains(r) {
            let k = choose|k: int| 0 <= k < rows.len() && rows[k] == r;
            assert(idx.contains(k as usize));
            let i = choose|i: int| 0 <= i < idx.len() && idx[i] == k as usize;
            assert(s[i] == r);
        }
    }
}

/// Sorted rows are in order: no row has smaller keys than one before it.
pub proof fn law_sorted_in_order(rows: Seq<Seq<u32>>, desc: Seq<bool>, keys: Seq<Seq<KeyView>>, i: int, j: int)
    requires
        rows.len() <= usize::MAX,
        0 <= i < j < rows.len(),
    ensures
        exists|a: int, b: int|
            0 <= a < rows.len() && 0 <= b < rows.len() && sorted_by_keys(rows, desc, keys)[i]
                == #[trigger] rows[a] && sorted_by_keys(rows, desc, keys)[j] == #[trigger] rows[b]
                && keys_side(desc, keys[a], keys[b], 0) != Side::After,
{
    let idx = lemma_order_exists(rows.len(), desc, keys);
    let chosen = choose|x: Seq<usize>| is_order(x, rows.len(), desc, keys);
    assert(row_leq(desc, keys, chosen[i], chosen[j]));
    assert(sorted_by_keys(rows, desc, keys)[i] == rows[chosen[i] as int]);
    assert(sorted_by_keys(rows, desc, keys)[j] == rows[chosen[j] as int]);
}

/// Sorts the rows of a table. Rows with equal keys stay in their order.
pub fn sort_rows<F: Fn(NumberCall) -> NumberReply>(
    rows: &mut RowBlock,
    vars: &Vec<String>,
    orders: &Vec<OrderBy>,
    dict: &Dictionary,
    numbers: &F,
)
    requires
        old(rows).wf(),
        old(rows).width() == vars@.len(),
        dict.wf(),
        numbers_ok(*numbers),
    ensures
        final(rows).wf(),
        final(rows).width() == old(rows).width(),
        final(rows)@ == ordered_rows(
            replies(*numbers),
            dict.keys(),
            texts(vars@),
            old(rows)@,
            orders_view(orders@),
        ),
{
    let ghost ov = orders_view(orders@);
    let ghost num = replies(*numbers);
    let ghost vs = texts(vars@);
    let ghost want = table_keys(num, dict.keys(), vs, rows@, ov);
    let mut desc: Vec<bool> = Vec::new();
    let mut i: usize = 0;
    while i < orders.len()
        invariant
            i <= orders@.len(),
            ov == orders_view(orders@),
            desc@ == descending(ov).take(i as int),
        decreases orders@.len() - i,
    {
        desc.push(orders[i].descending);
        i += 1;
        assert(desc@ =~= descending(ov).take(i as int));
    }
    assert(desc@ =~= descending(ov));
    let n: usize = rows.n_rows();
    let mut keys: Vec<Vec<OrderKey>> = Vec::new();
    i = 0;
    assert(key_lists(keys@) =~= want.take(0));
    while i < n
        invariant
            i <= n,
            n == rows@.len(),
            rows.wf(),
            rows.width() == vars@.len(),
            dict.wf(),
            numbers_ok(*numbers),
            num == replies(*numbers),
            vs == texts(vars@),
            ov == orders_view(orders@),
            want == table_keys(num, dict.keys(), vs, rows@, ov),
            keys@.len() == i,
            forall|k: int| 0 <= k < i ==> (#[trigger] keys@[k])@.len() == orders@.len(),
            key_lists(keys@) == want.take(i as int),
        decreases n - i,
    {
        let row: &[u32] = rows.row(i);
        let ghost c = scope_of(row@, vars@, *dict, *numbers);
        let mut list: Vec<OrderKey> = Vec::new();
        let mut k: usize = 0;
        assert(key_list(list@) =~= row_keys(ov, c).take(0));
        while k < orders.len()
            invariant
                k <= orders@.len(),
                row@.len() == vars@.len(),
                dict.wf(),
                numbers_ok(*numbers),
                ov == orders_view(orders@),
                c == scope_of(row@, vars@, *dict, *numbers),
                list@.len() == k,
                key_list(list@) == row_keys(ov, c).take(k as int),
            decreases orders@.len() - k,
        {
            let ghost before = key_list(list@);
            let key: OrderKey = order_key(eval(&orders[k].expr, row, vars, dict, numbers));
            assert(ov[k as int].expr == orders@[k as int].expr.view());
            list.push(key);
            k += 1;
            assert(key_list(list@) =~= before.push(key@));
            assert(key_list(list@) =~= row_keys(ov, c).take(k as int));
        }
        assert(row_keys(ov, c).take(k as int) =~= row_keys(ov, c));
        let ghost before = key_lists(keys@);
        keys.push(list);
        i += 1;
        assert(key_lists(keys@) =~= before.push(key_list(list@)));
        assert(key_lists(keys@) =~= want.take(i as int));
    }
    assert(want.take(i as int) =~= want);
    let idx: Vec<usize> = sorted_numbers(&keys, &desc);
    proof {
        let chosen = choose|x: Seq<usize>| is_order(x, rows@.len(), desc@, want);
        lemma_order_unique(chosen, idx@, rows@.len(), desc@, want);
    }
    let ghost sorted = sorted_by_keys(rows@, desc@, want);
    let mut out: RowBlock = RowBlock::new(rows.n_vars());
    i = 0;
    assert(out@ =~= sorted.take(0));
    while i < n
        invariant
            i <= n,
            n == rows@.len(),
            rows.wf(),
            idx@.len() == n,
            forall|k: int| 0 <= k < n ==> (#[trigger] idx@[k]) < n,
            sorted == Seq::new(rows@.len(), |i: int| rows@[idx@[i] as int]),
            out.wf(),
            out.width() == rows.width(),
            out@ == sorted.take(i as int),
        decreases n - i,
    {
        out.push_row(rows.row(idx[i]));
        i += 1;
        assert(out@ =~= sorted.take(i as int));
    }
    assert(sorted.take(i as int) =~= sorted);
    *rows = out;
}

} // verus!
