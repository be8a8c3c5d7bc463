//! The flat base of a permutation index: five arrays, owned or shared.

use crate::order::{merge_sort, Rank};
use crate::sorted::find;
use std::sync::Arc;
use vstd::prelude::*;
use vstd::slice::slice_subrange;

verus! {

/// A triple in the order of the index that holds it.
pub type IdTriple = (u32, u32, u32);

/// Lexicographic order on triples.
pub open spec fn lt3(a: IdTriple, b: IdTriple) -> bool {
    a.0 < b.0 || (a.0 == b.0 && (a.1 < b.1 || (a.1 == b.1 && a.2 < b.2)))
}

/// Strictly increasing in lexicographic order.
pub open spec fn increasing3(s: Seq<IdTriple>) -> bool {
    forall|i: int, j: int| #![trigger s[i], s[j]] 0 <= i < j < s.len() ==> lt3(s[i], s[j])
}

/// Strictly increasing pairs, in lexicographic order.
pub open spec fn increasing2(s: Seq<(u32, u32)>) -> bool {
    forall|i: int, j: int|
        #![trigger s[i], s[j]]
        0 <= i < j < s.len() ==> s[i].0 < s[j].0 || (s[i].0 == s[j].0 && s[i].1 < s[j].1)
}

/// The set of triples that occur in a sequence.
pub open spec fn triple_set(s: Seq<IdTriple>) -> Set<IdTriple> {
    Set::new(|t: IdTriple| s.contains(t))
}

/// A strictly increasing sequence has as many items as its set.
pub proof fn lemma_triple_set_len(s: Seq<IdTriple>)
    requires
        increasing3(s),
    ensures
        triple_set(s).finite(),
        triple_set(s).len() == s.len(),
        s.no_duplicates(),
{
    assert(triple_set(s) =~= s.to_set());
    s.unique_seq_to_set();
}

/// Two strictly increasing sequences with the same members are equal.
pub proof fn lemma_increasing3_unique(a: Seq<IdTriple>, b: Seq<IdTriple>)
    requires
        increasing3(a),
        increasing3(b),
        triple_set(a) == triple_set(b),
    ensures
        a == b,
    decreases a.len(),
{
    lemma_triple_set_len(a);
    lemma_triple_set_len(b);
    if a.len() > 0 {
        let n = a.len() - 1;
        assert(triple_set(a).contains(a[n]));
        assert(triple_set(b).contains(b[n]));
        let i = choose|i: int| 0 <= i < b.len() && b[i] == a[n];
        let j = choose|j: int| 0 <= j < a.len() && a[j] == b[n];
        assert(a[n] == b[n]);
        let a1 = a.drop_last();
        let b1 = b.drop_last();
        assert forall|t: IdTriple| triple_set(a1).contains(t) == triple_set(b1).contains(t) by {
            if a1.contains(t) {
                let k = choose|k: int| 0 <= k < a1.len() && a1[k] == t;
                assert(a[k] == t);
                assert(triple_set(a).contains(t));
                let l = choose|l: int| 0 <= l < b.len() && b[l] == t;
                assert(l != n);
                assert(b1[l] == t);
            }
            if b1.contains(t) {
                let k = choose|k: int| 0 <= k < b1.len() && b1[k] == t;
                assert(b[k] == t);
                assert(triple_set(b).contains(t));
                let l = choose|l: int| 0 <= l < a.len() && a[l] == t;
                assert(l != n);
                assert(a1[l] == t);
            }
        }
        assert(triple_set(a1) =~= triple_set(b1));
        lemma_increasing3_unique(a1, b1);
        assert(a =~= a1.push(a[n]));
        assert(b =~= b1.push(b[n]));
    } else {
        assert(a =~= b);
    }
}

/// The triples of a finite set, in order.
pub open spec fn triples_in_order(set: Set<IdTriple>) -> Seq<IdTriple> {
    choose|s: Seq<IdTriple>| #[trigger] increasing3(s) && triple_set(s) == set
}

pub proof fn lemma_triples_in_order(s: Seq<IdTriple>)
    requires
        increasing3(s),
    ensures
        triples_in_order(triple_set(s)) == s,
{
    assert(increasing3(s) && triple_set(s) == triple_set(s));
    let t = triples_in_order(triple_set(s));
    assert(increasing3(t) && triple_set(t) == triple_set(s));
    lemma_increasing3_unique(t, s);
}

/// The set of pairs that occur in a sequence.
pub open spec fn pair_set(s: Seq<(u32, u32)>) -> Set<(u32, u32)> {
    Set::new(|p: (u32, u32)| s.contains(p))
}

/// The pairs of a finite set, in order.
pub open spec fn pairs_in_order(set: Set<(u32, u32)>) -> Seq<(u32, u32)> {
    choose|s: Seq<(u32, u32)>| #[trigger] increasing2(s) && pair_set(s) == set
}

pub proof fn lemma_pairs_in_order(s: Seq<(u32, u32)>)
    requires
        increasing2(s),
    ensures
        pairs_in_order(pair_set(s)) == s,
{
    assert(increasing2(s) && pair_set(s) == pair_set(s));
    let t = pairs_in_order(pair_set(s));
    assert(increasing2(t) && pair_set(t) == pair_set(s));
    // Read the pairs as triples with a common first value.
    let f = |p: (u32, u32)| (0u32, p.0, p.1);
    let s3 = s.map_values(f);
    let t3 = t.map_values(f);
    assert forall|x: IdTriple| triple_set(s3).contains(x) == triple_set(t3).contains(x) by {
        if s3.contains(x) {
            let i = choose|i: int| 0 <= i < s3.len() && s3[i] == x;
            assert(s.contains(s[i]));
            assert(pair_set(s).contains(s[i]));
            let j = choose|j: int| 0 <= j < t.len() && t[j] == s[i];
            assert(t3[j] == x);
        }
        if t3.contains(x) {
            let i = choose|i: int| 0 <= i < t3.len() && t3[i] == x;
            assert(t.contains(t[i]));
            assert(pair_set(t).contains(t[i]));
            let j = choose|j: int| 0 <= j < s.len() && s[j] == t[i];
            assert(s3[j] == x);
        }
    }
    assert(triple_set(s3) =~= triple_set(t3));
    lemma_increasing3_unique(s3, t3);
    assert forall|i: int| 0 <= i < s.len() implies s[i] == t[i] by {
        assert(s3[i] == t3[i]);
    }
    assert(s3.len() == t3.len());
    assert(s =~= t);
}

/// The triples of a finite set can be listed in order.
pub proof fn lemma_triples_in_order_of(set: Set<IdTriple>)
    requires
        set.finite(),
    ensures
        increasing3(triples_in_order(set)),
        triple_set(triples_in_order(set)) == set,
{
    let leq = |a: IdTriple, b: IdTriple| !lt3(b, a);
    let s = crate::order::lemma_sorted_list(set, leq);
    assert forall|i: int, j: int| 0 <= i < j < s.len() implies lt3(s[i], s[j]) by {
        assert(leq(s[i], s[j]));
    }
    assert(triple_set(s) =~= set);
    lemma_triples_in_order(s);
}

/// The pairs of a finite set can be listed in order.
pub proof fn lemma_pairs_in_order_of(set: Set<(u32, u32)>)
    requires
        set.finite(),
    ensures
        increasing2(pairs_in_order(set)),
        pair_set(pairs_in_order(set)) == set,
{
    let leq = |a: (u32, u32), b: (u32, u32)| a.0 < b.0 || (a.0 == b.0 && a.1 <= b.1);
    let s = crate::order::lemma_sorted_list(set, leq);
    assert(increasing2(s)) by {
        assert forall|i: int, j: int| 0 <= i < j < s.len() implies s[i].0 < s[j].0 || (s[i].0 == s[j].0
            && s[i].1 < s[j].1) by {
            assert(leq(s[i], s[j]));
        }
    }
    assert(pair_set(s) =~= set);
    lemma_pairs_in_order(s);
}

/// The lexicographic order, as a sorting order.
struct TripleRank {}

impl Rank<IdTriple> for TripleRank {
    open spec fn leq(&self, a: IdTriple, b: IdTriple) -> bool {
        !lt3(b, a)
    }

    open spec fn covers(&self, a: IdTriple) -> bool {
        true
    }

    proof fn total(&self, a: IdTriple, b: IdTriple) {
    }

    proof fn transitive(&self, a: IdTriple, b: IdTriple, c: IdTriple) {
    }

    fn le(&self, a: &IdTriple, b: &IdTriple) -> (r: bool) {
        a.0 < b.0 || (a.0 == b.0 && (a.1 < b.1 || (a.1 == b.1 && a.2 <= b.2)))
    }
}

/// Sorts a triple list and drops the duplicates.
pub(crate) fn sort_dedup(triples: &[IdTriple]) -> (out: Vec<IdTriple>)
    ensures
        increasing3(out@),
        triple_set(out@) == triple_set(triples@),
        out@.len() <= triples@.len(),
{
    let rank: TripleRank = TripleRank {  };
    let sorted: Vec<IdTriple> = merge_sort(&rank, triples);
    proof {
        crate::order::lemma_same_members(sorted@, triples@);
    }
    let mut out: Vec<IdTriple> = Vec::new();
    let mut i: usize = 0;
    while i < sorted.len()
        invariant
            i <= sorted@.len(),
            crate::order::ranked(&rank, sorted@),
            increasing3(out@),
            out@.len() <= i,
            (i == 0) == (out@.len() == 0),
            i > 0 ==> out@[out@.len() - 1] == sorted@[i - 1],
            forall|t: IdTriple| out@.contains(t) <==> sorted@.take(i as int).contains(t),
        decreases sorted@.len() - i,
    {
        let t: IdTriple = sorted[i];
        let fresh: bool = if i == 0 {
            true
        } else {
            let p: IdTriple = sorted[i - 1];
            p.0 != t.0 || p.1 != t.1 || p.2 != t.2
        };
        let ghost before = out@;
        if fresh {
            out.push(t);
            proof {
                assert forall|k: int| 0 <= k < before.len() implies lt3(before[k], t) by {
                    if i > 0 {
                        assert(rank.leq(sorted@[i - 1], sorted@[i as int]));
                    }
                }
            }
        }
        proof {
            let s0 = sorted@.take(i as int);
            let s1 = sorted@.take(i + 1);
            assert(s1 =~= s0.push(t));
            assert forall|x: IdTriple| out@.contains(x) <==> s1.contains(x) by {
                lemma_push3(s0, t, x);
                if fresh {
                    lemma_push3(before, t, x);
                } else {
                    assert(s0[i - 1] == t);
                }
            }
        }
        i += 1;
    }
    proof {
        assert(sorted@.take(i as int) =~= sorted@);
        assert(triple_set(out@) =~= triple_set(triples@));
    }
    out
}

pub proof fn lemma_push3(s: Seq<IdTriple>, v: IdTriple, x: IdTriple)
    ensures
        s.push(v).contains(x) <==> s.contains(x) || x == v,
{
    if s.contains(x) {
        let k = choose|k: int| 0 <= k < s.len() && s[k] == x;
        assert(s.push(v)[k] == x);
    }
    assert(s.push(v)[s.len() as int] == v);
    if s.push(v).contains(x) && x != v {
        let k = choose|k: int| 0 <= k < s.push(v).len() && s.push(v)[k] == x;
        assert(s[k] == x);
    }
}

/// A `u32` array that is either owned or a window into the shared words of a
/// loaded snapshot.
pub enum U32Arena {
    Owned(Vec<u32>),
    Mapped { map: Arc<Vec<u32>>, offset: usize, len: usize },
}

impl View for U32Arena {
    type V = Seq<u32>;

    open spec fn view(&self) -> Seq<u32> {
        match self {
            U32Arena::Owned(v) => v@,
            U32Arena::Mapped { map, offset, len } => map@.subrange(*offset as int, *offset + *len),
        }
    }
}

impl U32Arena {
    /// A window lies inside the words that it looks into.
    pub open spec fn wf(&self) -> bool {
        match self {
            U32Arena::Owned(_) => true,
            U32Arena::Mapped { map, offset, len } => *offset + *len <= map@.len(),
        }
    }

    pub fn as_slice(&self) -> (r: &[u32])
        requires
            self.wf(),
        ensures
            r@ == self@,
    {
        match self {
            U32Arena::Owned(v) => v.as_slice(),
            U32Arena::Mapped { map, offset, len } => {
                let words: &Vec<u32> = &**map;
                assert(words.len() == map@.len());
                slice_subrange(words.as_slice(), *offset, *offset + *len)
            },
        }
    }
}

impl Default for U32Arena {
    fn default() -> (r: U32Arena)
        ensures
            r.wf(),
            r@ == Seq::<u32>::empty(),
    {
        U32Arena::Owned(Vec::new())
    }
}

/// `off` cuts `0..total` into `n` non-empty ranges.
pub open spec fn offsets_ok(off: Seq<u32>, n: nat, total: nat) -> bool {
    &&& off.len() == n + 1
    &&& off[0] == 0
    &&& off[n as int] == total
    &&& forall|a: int, b: int| 0 <= a < b <= n ==> off[a] < off[b]
}

/// Whether range `j` holds position `k`.
pub open spec fn holds_at(off: Seq<u32>, j: int, k: int) -> bool {
    0 <= j < off.len() - 1 && off[j] <= k < off[j + 1]
}

/// The range that holds position `k`.
pub open spec fn owner(off: Seq<u32>, k: int) -> int {
    choose|j: int| holds_at(off, j, k)
}

/// Every position lies in exactly one range.
pub proof fn lemma_owner(off: Seq<u32>, n: nat, total: nat, k: int)
    requires
        offsets_ok(off, n, total),
        0 <= k < total,
    ensures
        0 <= owner(off, k) < n,
        off[owner(off, k)] <= k < off[owner(off, k) + 1],
        forall|j: int| #[trigger] holds_at(off, j, k) ==> j == owner(off, k),
{
    lemma_owner_exists(off, n, total, k, n as int);
    let o = owner(off, k);
    assert forall|j: int| #[trigger] holds_at(off, j, k) implies j == o by {
        if j < o {
            assert(off[j + 1] <= off[o]);
        }
        if o < j {
            assert(off[o + 1] <= off[j]);
        }
    }
}

proof fn lemma_owner_exists(off: Seq<u32>, n: nat, total: nat, k: int, m: int)
    requires
        offsets_ok(off, n, total),
        0 <= m <= n,
        0 <= k < off[m],
    ensures
        exists|j: int| holds_at(off, j, k),
    decreases m,
{
    if m > 0 {
        if off[m - 1] <= k {
            assert(holds_at(off, m - 1, k));
        } else {
            lemma_owner_exists(off, n, total, k, m - 1);
        }
    }
}

/// Immutable, three-level flat structure: per first value its second values,
/// per pair its third values, all in five arrays.
pub struct FlatCsr {
    keys: U32Arena,
    key_off: U32Arena,
    l1: U32Arena,
    l1_off: U32Arena,
    vals: U32Arena,
}

/// Inside each range the values are strictly increasing.
pub open spec fn segments_increase(off: Seq<u32>, vals: Seq<u32>) -> bool {
    forall|j: int, a: int, b: int|
        #![trigger holds_at(off, j, a), holds_at(off, j, b)]
        holds_at(off, j, a) && holds_at(off, j, b) && a < b ==> vals[a] < vals[b]
}

/// Range `j` is not empty and lies inside `0..total`.
pub open spec fn span_ok(off: Seq<u32>, j: int, total: nat) -> bool {
    off[j] < off[j + 1] <= total
}

/// The five arrays fit together.
#[verifier::opaque]
pub open spec fn csr_ok(
    keys: Seq<u32>,
    key_off: Seq<u32>,
    l1: Seq<u32>,
    l1_off: Seq<u32>,
    vals: Seq<u32>,
) -> bool {
    &&& crate::sorted::increasing(keys)
    &&& offsets_ok(key_off, keys.len(), l1.len())
    &&& offsets_ok(l1_off, l1.len(), vals.len())
    &&& segments_increase(key_off, l1)
    &&& segments_increase(l1_off, vals)
}

/// The triples that five arrays stand for, in order.
pub open spec fn csr_flat(
    keys: Seq<u32>,
    key_off: Seq<u32>,
    l1: Seq<u32>,
    l1_off: Seq<u32>,
    vals: Seq<u32>,
) -> Seq<IdTriple> {
    Seq::new(
        vals.len(),
        |k: int|
            (keys[owner(key_off, owner(l1_off, k))], l1[owner(l1_off, k)], vals[k]),
    )
}

/// The triples of well-formed arrays come in strictly increasing order.
pub proof fn lemma_csr_flat(
    keys: Seq<u32>,
    key_off: Seq<u32>,
    l1: Seq<u32>,
    l1_off: Seq<u32>,
    vals: Seq<u32>,
)
    requires
        csr_ok(keys, key_off, l1, l1_off, vals),
    ensures
        increasing3(csr_flat(keys, key_off, l1, l1_off, vals)),
{
    reveal(csr_ok);
    let f = csr_flat(keys, key_off, l1, l1_off, vals);
    assert forall|a: int, b: int| 0 <= a < b < f.len() implies lt3(f[a], f[b]) by {
        lemma_owner(l1_off, l1.len(), vals.len(), a);
        lemma_owner(l1_off, l1.len(), vals.len(), b);
        let ja = owner(l1_off, a);
        let jb = owner(l1_off, b);
        if jb < ja {
            assert(l1_off[jb + 1] <= l1_off[ja]);
        }
        lemma_owner(key_off, keys.len(), l1.len(), ja);
        lemma_owner(key_off, keys.len(), l1.len(), jb);
        let ia = owner(key_off, ja);
        let ib = owner(key_off, jb);
        if ib < ia {
            assert(key_off[ib + 1] <= key_off[ia]);
        }
        if ia == ib {
            if ja == jb {
                assert(holds_at(l1_off, ja, a) && holds_at(l1_off, ja, b));
            } else {
                assert(holds_at(key_off, ia, ja) && holds_at(key_off, ia, jb));
            }
        } else {
            assert(keys[ia] < keys[ib]);
        }
    }
}

/// Five arrays that are all empty or fit together.
pub open spec fn raw_ok(raw: Seq<Seq<u32>>) -> bool {
    ||| raw[0].len() == 0 && raw[1].len() == 0 && raw[2].len() == 0 && raw[3].len() == 0
        && raw[4].len() == 0
    ||| csr_ok(raw[0], raw[1], raw[2], raw[3], raw[4])
}

/// The triples of five arrays, in order.
pub open spec fn raw_flat(raw: Seq<Seq<u32>>) -> Seq<IdTriple> {
    csr_flat(raw[0], raw[1], raw[2], raw[3], raw[4])
}

/// Arrays that fit together are no longer than the triples are many, but for the
/// end marks.
pub proof fn lemma_raw_len(raw: Seq<Seq<u32>>)
    requires
        raw_ok(raw),
    ensures
        raw[4].len() == raw_flat(raw).len(),
        raw[2].len() <= raw[4].len(),
        raw[0].len() <= raw[2].len(),
        raw[1].len() <= raw[0].len() + 1,
        raw[3].len() <= raw[2].len() + 1,
{
    reveal(csr_ok);
    if csr_ok(raw[0], raw[1], raw[2], raw[3], raw[4]) {
        lemma_offsets_len(raw[1], raw[0].len(), raw[2].len(), raw[0].len() as int);
        lemma_offsets_len(raw[3], raw[2].len(), raw[4].len(), raw[2].len() as int);
    }
}

proof fn lemma_offsets_len(off: Seq<u32>, n: nat, total: nat, m: int)
    requires
        offsets_ok(off, n, total),
        0 <= m <= n,
    ensures
        m <= off[m],
    decreases m,
{
    if m > 0 {
        lemma_offsets_len(off, n, total, m - 1);
        assert(off[m - 1] < off[m]);
    }
}

impl FlatCsr {
    /// Nothing stored: all five arrays are empty.
    pub closed spec fn blank(&self) -> bool {
        self.keys@.len() == 0 && self.key_off@.len() == 0 && self.l1@.len() == 0
            && self.l1_off@.len() == 0 && self.vals@.len() == 0
    }

    pub closed spec fn wf(&self) -> bool {
        &&& self.keys.wf() && self.key_off.wf() && self.l1.wf() && self.l1_off.wf()
            && self.vals.wf()
        &&& self.blank() || csr_ok(self.keys@, self.key_off@, self.l1@, self.l1_off@, self.vals@)
    }

    /// The stored triples, in order.
    pub closed spec fn flat(&self) -> Seq<IdTriple> {
        csr_flat(self.keys@, self.key_off@, self.l1@, self.l1_off@, self.vals@)
    }

    /// The five arrays.
    pub closed spec fn raw(&self) -> Seq<Seq<u32>> {
        seq![self.keys@, self.key_off@, self.l1@, self.l1_off@, self.vals@]
    }

    /// What the five arrays say decides everything.
    pub proof fn lemma_raw(&self)
        ensures
            self.raw().len() == 5,
            self.wf() == (self.windows_ok() && raw_ok(self.raw())),
            self.flat() == raw_flat(self.raw()),
    {
    }

    pub proof fn lemma_flat(&self)
        requires
            self.wf(),
        ensures
            increasing3(self.flat()),
            self@.finite(),
            self@.len() == self.flat().len(),
            self@ == triple_set(self.flat()),
    {
        if self.blank() {
            assert(self.flat() =~= Seq::<IdTriple>::empty());
        } else {
            lemma_csr_flat(self.keys@, self.key_off@, self.l1@, self.l1_off@, self.vals@);
        }
        lemma_triple_set_len(self.flat());
    }
}

impl View for FlatCsr {
    type V = Set<IdTriple>;

    /// The set of stored triples.
    open spec fn view(&self) -> Set<IdTriple> {
        triple_set(self.flat())
    }
}

/// The arrays stand for the triples of `t`.
#[verifier::opaque]
spec fn csr_matches(
    keys: Seq<u32>,
    key_off: Seq<u32>,
    l1: Seq<u32>,
    l1_off: Seq<u32>,
    vals: Seq<u32>,
    t: Seq<IdTriple>,
) -> bool {
    &&& vals.len() == t.len()
    &&& forall|i: int, j: int, k: int|
        #![trigger holds_at(key_off, i, j), holds_at(l1_off, j, k)]
        holds_at(key_off, i, j) && holds_at(l1_off, j, k) ==> t[k] == (keys[i], l1[j], vals[k])
}

proof fn lemma_matches_flat(
    keys: Seq<u32>,
    key_off: Seq<u32>,
    l1: Seq<u32>,
    l1_off: Seq<u32>,
    vals: Seq<u32>,
    t: Seq<IdTriple>,
)
    requires
        csr_ok(keys, key_off, l1, l1_off, vals),
        csr_matches(keys, key_off, l1, l1_off, vals, t),
    ensures
        csr_flat(keys, key_off, l1, l1_off, vals) == t,
{
    reveal(csr_ok);
    reveal(csr_matches);
    let f = csr_flat(keys, key_off, l1, l1_off, vals);
    assert forall|k: int| 0 <= k < t.len() implies f[k] == t[k] by {
        lemma_owner(l1_off, l1.len(), vals.len(), k);
        let j = owner(l1_off, k);
        lemma_owner(key_off, keys.len(), l1.len(), j);
        let i = owner(key_off, j);
        assert(holds_at(key_off, i, j) && holds_at(l1_off, j, k));
    }
    assert(f =~= t);
}

/// The last triple sits in the last range of each level.
proof fn lemma_matches_last(
    keys: Seq<u32>,
    key_off: Seq<u32>,
    l1: Seq<u32>,
    l1_off: Seq<u32>,
    vals: Seq<u32>,
    t: Seq<IdTriple>,
)
    requires
        csr_ok(keys, key_off, l1, l1_off, vals),
        csr_matches(keys, key_off, l1, l1_off, vals, t),
        t.len() > 0,
    ensures
        keys.len() > 0,
        l1.len() > 0,
        t.last() == (keys.last(), l1.last(), vals.last()),
{
    reveal(csr_ok);
    reveal(csr_matches);
    lemma_owner(l1_off, l1.len(), vals.len(), vals.len() - 1);
    let j = l1.len() - 1;
    assert(holds_at(l1_off, j, vals.len() - 1));
    lemma_owner(key_off, keys.len(), l1.len(), j);
    assert(holds_at(key_off, keys.len() - 1, j));
}

/// A third value appended to the last pair.
proof fn lemma_csr_push_val(
    keys: Seq<u32>,
    key_off: Seq<u32>,
    l1: Seq<u32>,
    l1_off: Seq<u32>,
    vals: Seq<u32>,
    t: Seq<IdTriple>,
    x: IdTriple,
    l1_off2: Seq<u32>,
)
    requires
        csr_ok(keys, key_off, l1, l1_off, vals),
        csr_matches(keys, key_off, l1, l1_off, vals, t),
        t.len() > 0,
        lt3(t.last(), x),
        t.last().0 == x.0,
        t.last().1 == x.1,
        vals.len() < u32::MAX,
        l1_off2 == l1_off.update(l1.len() as int, (vals.len() + 1) as u32),
    ensures
        csr_ok(keys, key_off, l1, l1_off2, vals.push(x.2)),
        csr_matches(keys, key_off, l1, l1_off2, vals.push(x.2), t.push(x)),
{
    reveal(csr_ok);
    reveal(csr_matches);
    lemma_matches_last(keys, key_off, l1, l1_off, vals, t);
    let vals2 = vals.push(x.2);
    assert forall|j: int, a: int, b: int|
        #![trigger holds_at(l1_off2, j, a), holds_at(l1_off2, j, b)]
        holds_at(l1_off2, j, a) && holds_at(l1_off2, j, b) && a < b implies vals2[a] < vals2[b] by {
        if b < vals.len() {
            assert(holds_at(l1_off, j, a) && holds_at(l1_off, j, b));
        } else {
            if a < vals.len() - 1 {
                assert(holds_at(l1_off, j, a) && holds_at(l1_off, j, vals.len() - 1));
            }
        }
    }
    assert forall|i: int, j: int, k: int|
        #![trigger holds_at(key_off, i, j), holds_at(l1_off2, j, k)]
        holds_at(key_off, i, j) && holds_at(l1_off2, j, k) implies t.push(x)[k] == (
        keys[i],
        l1[j],
        vals2[k],
    ) by {
        if k < vals.len() {
            assert(holds_at(l1_off, j, k));
        } else {
            assert(j == l1.len() - 1);
            assert(i == keys.len() - 1) by {
                if i < keys.len() - 1 {
                    assert(key_off[i + 1] <= key_off[keys.len() - 1]);
                }
            }
        }
    }
}

/// A second value, with its first third value, appended to the last key.
proof fn lemma_csr_push_second(
    keys: Seq<u32>,
    key_off: Seq<u32>,
    l1: Seq<u32>,
    l1_off: Seq<u32>,
    vals: Seq<u32>,
    t: Seq<IdTriple>,
    x: IdTriple,
    key_off2: Seq<u32>,
)
    requires
        csr_ok(keys, key_off, l1, l1_off, vals),
        csr_matches(keys, key_off, l1, l1_off, vals, t),
        t.len() > 0,
        lt3(t.last(), x),
        t.last().0 == x.0,
        t.last().1 != x.1,
        vals.len() < u32::MAX,
        l1.len() < u32::MAX,
        key_off2 == key_off.update(keys.len() as int, (l1.len() + 1) as u32),
    ensures
        csr_ok(
            keys,
            key_off2,
            l1.push(x.1),
            l1_off.push((vals.len() + 1) as u32),
            vals.push(x.2),
        ),
        csr_matches(
            keys,
            key_off2,
            l1.push(x.1),
            l1_off.push((vals.len() + 1) as u32),
            vals.push(x.2),
            t.push(x),
        ),
{
    reveal(csr_ok);
    reveal(csr_matches);
    lemma_matches_last(keys, key_off, l1, l1_off, vals, t);
    let vals2 = vals.push(x.2);
    let l12 = l1.push(x.1);
    let l1_off2 = l1_off.push((vals.len() + 1) as u32);
    assert forall|i: int, a: int, b: int|
        #![trigger holds_at(key_off2, i, a), holds_at(key_off2, i, b)]
        holds_at(key_off2, i, a) && holds_at(key_off2, i, b) && a < b implies l12[a] < l12[b] by {
        if b < l1.len() {
            assert(holds_at(key_off, i, a) && holds_at(key_off, i, b));
        } else {
            if a < l1.len() - 1 {
                assert(holds_at(key_off, i, a) && holds_at(key_off, i, l1.len() - 1));
            }
        }
    }
    assert forall|j: int, a: int, b: int|
        #![trigger holds_at(l1_off2, j, a), holds_at(l1_off2, j, b)]
        holds_at(l1_off2, j, a) && holds_at(l1_off2, j, b) && a < b implies vals2[a] < vals2[b] by {
        if j < l1.len() {
            assert(l1_off[j + 1] <= vals.len()) by {
                if j + 1 < l1.len() {
                    assert(l1_off[j + 1] < l1_off[l1.len() as int]);
                }
            }
            assert(holds_at(l1_off, j, a) && holds_at(l1_off, j, b));
        }
    }
    assert forall|i: int, j: int, k: int|
        #![trigger holds_at(key_off2, i, j), holds_at(l1_off2, j, k)]
        holds_at(key_off2, i, j) && holds_at(l1_off2, j, k) implies t.push(x)[k] == (
        keys[i],
        l12[j],
        vals2[k],
    ) by {
        if j < l1.len() {
            assert(l1_off[j + 1] <= vals.len()) by {
                if j + 1 < l1.len() {
                    assert(l1_off[j + 1] < l1_off[l1.len() as int]);
                }
            }
            assert(holds_at(l1_off, j, k));
            assert(holds_at(key_off, i, j));
        } else {
            assert(i == keys.len() - 1) by {
                if i < keys.len() - 1 {
                    assert(key_off[i + 1] <= key_off[keys.len() - 1]);
                }
            }
        }
    }
}

/// A key, with its first pair, appended.
proof fn lemma_csr_push_key(
    keys: Seq<u32>,
    key_off: Seq<u32>,
    l1: Seq<u32>,
    l1_off: Seq<u32>,
    vals: Seq<u32>,
    t: Seq<IdTriple>,
    x: IdTriple,
)
    requires
        csr_ok(keys, key_off, l1, l1_off, vals),
        csr_matches(keys, key_off, l1, l1_off, vals, t),
        t.len() > 0 ==> lt3(t.last(), x) && t.last().0 != x.0,
        vals.len() < u32::MAX,
        l1.len() < u32::MAX,
    ensures
        csr_ok(
            keys.push(x.0),
            key_off.push((l1.len() + 1) as u32),
            l1.push(x.1),
            l1_off.push((vals.len() + 1) as u32),
            vals.push(x.2),
        ),
        csr_matches(
            keys.push(x.0),
            key_off.push((l1.len() + 1) as u32),
            l1.push(x.1),
            l1_off.push((vals.len() + 1) as u32),
            vals.push(x.2),
            t.push(x),
        ),
{
    reveal(csr_ok);
    reveal(csr_matches);
    if t.len() > 0 {
        lemma_matches_last(keys, key_off, l1, l1_off, vals, t);
    } else {
        assert(l1.len() == 0) by {
            if l1.len() > 0 {
                assert(l1_off[0] < l1_off[l1.len() as int]);
            }
        }
        assert(keys.len() == 0) by {
            if keys.len() > 0 {
                assert(key_off[0] < key_off[keys.len() as int]);
            }
        }
    }
    let keys2 = keys.push(x.0);
    let key_off2 = key_off.push((l1.len() + 1) as u32);
    let vals2 = vals.push(x.2);
    let l12 = l1.push(x.1);
    let l1_off2 = l1_off.push((vals.len() + 1) as u32);
    assert(offsets_ok(key_off2, keys2.len(), l12.len()));
    assert(offsets_ok(l1_off2, l12.len(), vals2.len()));
    assert(crate::sorted::increasing(keys2)) by {
        assert forall|i: int, j: int| 0 <= i < j < keys2.len() implies keys2[i] < keys2[j] by {
            if j == keys.len() && i < keys.len() - 1 {
                assert(keys[i] < keys[keys.len() - 1]);
            }
        }
    }
    assert forall|i: int, a: int, b: int|
        #![trigger holds_at(key_off2, i, a), holds_at(key_off2, i, b)]
        holds_at(key_off2, i, a) && holds_at(key_off2, i, b) && a < b implies l12[a] < l12[b] by {
        if i < keys.len() {
            assert(key_off[i + 1] <= l1.len()) by {
                if i + 1 < keys.len() {
                    assert(key_off[i + 1] < key_off[keys.len() as int]);
                }
            }
            assert(holds_at(key_off, i, a) && holds_at(key_off, i, b));
        }
    }
    assert forall|j: int, a: int, b: int|
        #![trigger holds_at(l1_off2, j, a), holds_at(l1_off2, j, b)]
        holds_at(l1_off2, j, a) && holds_at(l1_off2, j, b) && a < b implies vals2[a] < vals2[b] by {
        if j < l1.len() {
            assert(l1_off[j + 1] <= vals.len()) by {
                if j + 1 < l1.len() {
                    assert(l1_off[j + 1] < l1_off[l1.len() as int]);
                }
            }
            assert(holds_at(l1_off, j, a) && holds_at(l1_off, j, b));
        }
    }
    assert forall|i: int, j: int, k: int|
        #![trigger holds_at(key_off2, i, j), holds_at(l1_off2, j, k)]
        holds_at(key_off2, i, j) && holds_at(l1_off2, j, k) implies t.push(x)[k] == (
        keys2[i],
        l12[j],
        vals2[k],
    ) by {
        if j < l1.len() {
            assert(l1_off[j + 1] <= vals.len()) by {
                if j + 1 < l1.len() {
                    assert(l1_off[j + 1] < l1_off[l1.len() as int]);
                }
            }
            assert(i < keys.len());
            assert(holds_at(l1_off, j, k));
            assert(holds_at(key_off, i, j));
        } else {
            assert(i == keys.len()) by {
                if i < keys.len() {
                    if i + 1 < keys.len() {
                        assert(key_off[i + 1] < key_off[keys.len() as int]);
                    }
                }
            }
        }
    }
}

impl FlatCsr {
    /// Builds the flat structure from an unsorted triple list.
    pub(crate) fn build(triples: &[IdTriple]) -> (r: FlatCsr)
        requires
            triples@.len() <= u32::MAX,
        ensures
            r.wf(),
            r@ == triple_set(triples@),
            r.flat().len() <= triples@.len(),
    {
        let sorted: Vec<IdTriple> = sort_dedup(triples);
        let mut keys: Vec<u32> = Vec::new();
        let mut key_off: Vec<u32> = Vec::new();
        let mut l1: Vec<u32> = Vec::new();
        let mut l1_off: Vec<u32> = Vec::new();
        let mut vals: Vec<u32> = Vec::new();
        let mut i: usize = 0;
        proof {
            let ko = key_off@.push(l1@.len() as u32);
            let lo = l1_off@.push(vals@.len() as u32);
            assert(csr_ok(keys@, ko, l1@, lo, vals@)) by {
                reveal(csr_ok);
            }
            assert(csr_matches(keys@, ko, l1@, lo, vals@, sorted@.take(0))) by {
                reveal(csr_matches);
            }
        }
        while i < sorted.len()
            invariant
                i <= sorted@.len() <= u32::MAX,
                increasing3(sorted@),
                vals@.len() == i,
                l1@.len() <= i,
                key_off@.len() == keys@.len(),
                l1_off@.len() == l1@.len(),
                csr_ok(
                    keys@,
                    key_off@.push(l1@.len() as u32),
                    l1@,
                    l1_off@.push(vals@.len() as u32),
                    vals@,
                ),
                csr_matches(
                    keys@,
                    key_off@.push(l1@.len() as u32),
                    l1@,
                    l1_off@.push(vals@.len() as u32),
                    vals@,
                    sorted@.take(i as int),
                ),
            decreases sorted@.len() - i,
        {
            let x: IdTriple = sorted[i];
            let new_key: bool = i == 0 || sorted[i - 1].0 != x.0;
            let new_second: bool = new_key || sorted[i - 1].1 != x.1;
            let ghost t = sorted@.take(i as int);
            let ghost ko = key_off@.push(l1@.len() as u32);
            let ghost lo = l1_off@.push(vals@.len() as u32);
            proof {
                assert(t.len() > 0 ==> t.last() == sorted@[i - 1]);
                assert(sorted@.take(i + 1) =~= t.push(x));
                if new_key {
                    lemma_csr_push_key(keys@, ko, l1@, lo, vals@, t, x);
                } else if new_second {
                    lemma_csr_push_second(
                        keys@,
                        ko,
                        l1@,
                        lo,
                        vals@,
                        t,
                        x,
                        ko.update(keys@.len() as int, (l1@.len() + 1) as u32),
                    );
                } else {
                    lemma_csr_push_val(
                        keys@,
                        ko,
                        l1@,
                        lo,
                        vals@,
                        t,
                        x,
                        lo.update(l1@.len() as int, (vals@.len() + 1) as u32),
                    );
                }
            }
            if new_key {
                key_off.push(l1.len() as u32);
                keys.push(x.0);
            }
            if new_second {
                l1_off.push(vals.len() as u32);
                l1.push(x.1);
            }
            vals.push(x.2);
            i += 1;
            proof {
                let ko2 = key_off@.push(l1@.len() as u32);
                let lo2 = l1_off@.push(vals@.len() as u32);
                if new_key {
                    assert(ko2 =~= ko.push(l1@.len() as u32));
                    assert(lo2 =~= lo.push(vals@.len() as u32));
                } else if new_second {
                    assert(ko2 =~= ko.update(keys@.len() as int, l1@.len() as u32));
                    assert(lo2 =~= lo.push(vals@.len() as u32));
                } else {
                    assert(ko2 =~= ko);
                    assert(lo2 =~= lo.update(l1@.len() as int, vals@.len() as u32));
                }
            }
        }
        key_off.push(l1.len() as u32);
        l1_off.push(vals.len() as u32);
        proof {
            assert(sorted@.take(i as int) =~= sorted@);
            lemma_matches_flat(keys@, key_off@, l1@, l1_off@, vals@, sorted@);
        }
        FlatCsr {
            keys: U32Arena::Owned(keys),
            key_off: U32Arena::Owned(key_off),
            l1: U32Arena::Owned(l1),
            l1_off: U32Arena::Owned(l1_off),
            vals: U32Arena::Owned(vals),
        }
    }
}

impl FlatCsr {
    /// Position `k` of the flat sequence, read through the three levels.
    proof fn lemma_at(&self, i: int, j: int, k: int)
        requires
            self.wf(),
            holds_at(self.key_off@, i, j),
            holds_at(self.l1_off@, j, k),
        ensures
            0 <= i < self.keys@.len(),
            0 <= j < self.l1@.len(),
            0 <= k < self.vals@.len(),
            self.flat()[k] == (self.keys@[i], self.l1@[j], self.vals@[k]),
            self@.contains((self.keys@[i], self.l1@[j], self.vals@[k])),
    {
        reveal(csr_ok);
        if j + 1 < self.l1@.len() {
            assert(self.l1_off@[j + 1] < self.l1_off@[self.l1@.len() as int]);
        }
        if i + 1 < self.keys@.len() {
            assert(self.key_off@[i + 1] < self.key_off@[self.keys@.len() as int]);
        }
        lemma_owner(self.l1_off@, self.l1@.len(), self.vals@.len(), k);
        lemma_owner(self.key_off@, self.keys@.len(), self.l1@.len(), j);
        assert(self.flat()[k] == (self.keys@[i], self.l1@[j], self.vals@[k]));
        assert(self.flat().contains(self.flat()[k]));
    }

    /// A stored triple has a position on each level.
    proof fn lemma_find(&self, t: IdTriple) -> (r: (int, int, int))
        requires
            self.wf(),
            self@.contains(t),
        ensures
            holds_at(self.key_off@, r.0, r.1),
            holds_at(self.l1_off@, r.1, r.2),
            0 <= r.0 < self.keys@.len(),
            0 <= r.1 < self.l1@.len(),
            0 <= r.2 < self.vals@.len(),
            t == (self.keys@[r.0], self.l1@[r.1], self.vals@[r.2]),
            !self.blank(),
    {
        reveal(csr_ok);
        let k = choose|k: int| 0 <= k < self.flat().len() && self.flat()[k] == t;
        lemma_owner(self.l1_off@, self.l1@.len(), self.vals@.len(), k);
        let j = owner(self.l1_off@, k);
        lemma_owner(self.key_off@, self.keys@.len(), self.l1@.len(), j);
        (owner(self.key_off@, j), j, k)
    }

    /// The range of a level lies inside the next level.
    proof fn lemma_bounds(&self)
        requires
            self.wf(),
            !self.blank(),
        ensures
            crate::sorted::increasing(self.keys@),
            self.key_off@.len() == self.keys@.len() + 1,
            self.l1_off@.len() == self.l1@.len() + 1,
            forall|i: int|
                0 <= i < self.keys@.len() ==> #[trigger] span_ok(self.key_off@, i, self.l1@.len()),
            forall|j: int|
                0 <= j < self.l1@.len() ==> #[trigger] span_ok(self.l1_off@, j, self.vals@.len()),
    {
        reveal(csr_ok);
        assert forall|i: int| 0 <= i < self.keys@.len() implies #[trigger] span_ok(
            self.key_off@,
            i,
            self.l1@.len(),
        ) by {
            if i + 1 < self.keys@.len() {
                assert(self.key_off@[i + 1] < self.key_off@[self.keys@.len() as int]);
            }
        }
        assert forall|j: int| 0 <= j < self.l1@.len() implies #[trigger] span_ok(
            self.l1_off@,
            j,
            self.vals@.len(),
        ) by {
            if j + 1 < self.l1@.len() {
                assert(self.l1_off@[j + 1] < self.l1_off@[self.l1@.len() as int]);
            }
        }
    }

    /// The second values of one key are in order.
    proof fn lemma_l1_segment(&self, i: int)
        requires
            self.wf(),
            !self.blank(),
            0 <= i < self.keys@.len(),
        ensures
            0 <= self.key_off@[i] < self.key_off@[i + 1] <= self.l1@.len(),
            crate::sorted::increasing(
                self.l1@.subrange(self.key_off@[i] as int, self.key_off@[i + 1] as int),
            ),
    {
        self.lemma_bounds();
        assert(span_ok(self.key_off@, i, self.l1@.len()));
        reveal(csr_ok);
        let seg = self.l1@.subrange(self.key_off@[i] as int, self.key_off@[i + 1] as int);
        assert forall|a: int, b: int| 0 <= a < b < seg.len() implies seg[a] < seg[b] by {
            assert(holds_at(self.key_off@, i, self.key_off@[i] + a));
            assert(holds_at(self.key_off@, i, self.key_off@[i] + b));
        }
    }

    /// The third values of one pair are in order.
    proof fn lemma_vals_segment(&self, j: int)
        requires
            self.wf(),
            !self.blank(),
            0 <= j < self.l1@.len(),
        ensures
            0 <= self.l1_off@[j] < self.l1_off@[j + 1] <= self.vals@.len(),
            crate::sorted::increasing(
                self.vals@.subrange(self.l1_off@[j] as int, self.l1_off@[j + 1] as int),
            ),
    {
        self.lemma_bounds();
        assert(span_ok(self.l1_off@, j, self.vals@.len()));
        reveal(csr_ok);
        let seg = self.vals@.subrange(self.l1_off@[j] as int, self.l1_off@[j + 1] as int);
        assert forall|a: int, b: int| 0 <= a < b < seg.len() implies seg[a] < seg[b] by {
            assert(holds_at(self.l1_off@, j, self.l1_off@[j] + a));
            assert(holds_at(self.l1_off@, j, self.l1_off@[j] + b));
        }
    }

    /// Nothing stored.
    pub(crate) fn empty() -> (r: FlatCsr)
        ensures
            r.wf(),
            r@ == Set::<IdTriple>::empty(),
            r.flat().len() == 0,
    {
        let r: FlatCsr = FlatCsr {
            keys: U32Arena::Owned(Vec::new()),
            key_off: U32Arena::Owned(Vec::new()),
            l1: U32Arena::Owned(Vec::new()),
            l1_off: U32Arena::Owned(Vec::new()),
            vals: U32Arena::Owned(Vec::new()),
        };
        assert(r@ =~= Set::<IdTriple>::empty());
        r
    }

    /// The whole structure from its five arrays.
    pub fn from_arenas(
        keys: U32Arena,
        key_off: U32Arena,
        l1: U32Arena,
        l1_off: U32Arena,
        vals: U32Arena,
    ) -> (r: FlatCsr)
        ensures
            r.raw() == seq![keys@, key_off@, l1@, l1_off@, vals@],
            r.windows_ok() == (keys.wf() && key_off.wf() && l1.wf() && l1_off.wf() && vals.wf()),
    {
        FlatCsr { keys, key_off, l1, l1_off, vals }
    }

    /// Each array lies inside the words that it looks into.
    pub closed spec fn windows_ok(&self) -> bool {
        self.keys.wf() && self.key_off.wf() && self.l1.wf() && self.l1_off.wf() && self.vals.wf()
    }

    /// The five arrays as slices.
    pub fn arrays(&self) -> (r: [&[u32]; 5])
        requires
            self.wf(),
        ensures
            seq![r[0]@, r[1]@, r[2]@, r[3]@, r[4]@] == self.raw(),
    {
        [
            self.keys.as_slice(),
            self.key_off.as_slice(),
            self.l1.as_slice(),
            self.l1_off.as_slice(),
            self.vals.as_slice(),
        ]
    }

    /// The pair stands at `i` on the first level and at `j` on the second.
    spec fn leaf_at(&self, first: u32, second: u32, i: int, j: int) -> bool {
        &&& 0 <= i < self.keys@.len()
        &&& 0 <= j < self.l1@.len()
        &&& holds_at(self.key_off@, i, j)
        &&& self.keys@[i] == first
        &&& self.l1@[j] == second
    }

    spec fn has_leaf_at(&self, first: u32, second: u32, j: int) -> bool {
        exists|i: int| self.leaf_at(first, second, i, j)
    }

    /// Position of the pair `(first, second)` on the second level.
    fn leaf_index(&self, first: u32, second: u32) -> (r: Option<usize>)
        requires
            self.wf(),
        ensures
            r matches Some(j) ==> !self.blank(),
            r matches Some(j) ==> self.has_leaf_at(first, second, j as int),
            r is None ==> forall|t: u32| !self@.contains((first, second, t)),
    {
        let keys: &[u32] = self.keys.as_slice();
        proof {
            if !self.blank() {
                self.lemma_bounds();
            }
        }
        match find(keys, first) {
            Err(_) => {
                proof {
                    assert forall|t: u32| !self@.contains((first, second, t)) by {
                        if self@.contains((first, second, t)) {
                            let (i, j, k) = self.lemma_find((first, second, t));
                            assert(keys@.contains(keys@[i]));
                        }
                    }
                }
                None
            },
            Ok(i) => {
                assert(span_ok(self.key_off@, i as int, self.l1@.len()));
                let key_off: &[u32] = self.key_off.as_slice();
                let start: usize = key_off[i] as usize;
                let end: usize = key_off[i + 1] as usize;
                let seg: &[u32] = slice_subrange(self.l1.as_slice(), start, end);
                proof {
                    self.lemma_l1_segment(i as int);
                }
                match find(seg, second) {
                    Ok(p) => {
                        let j: usize = start + p;
                        proof {
                            assert(self.l1@[j as int] == seg@[p as int]);
                            assert(self.leaf_at(first, second, i as int, j as int));
                            assert(self.has_leaf_at(first, second, j as int));
                        }
                        Some(j)
                    },
                    Err(_) => {
                        proof {
                            assert forall|t: u32| !self@.contains((first, second, t)) by {
                                if self@.contains((first, second, t)) {
                                    let (i2, j, k) = self.lemma_find((first, second, t));
                                    assert(i2 == i);
                                    assert(seg@[j - start] == second);
                                }
                            }
                        }
                        None
                    },
                }
            },
        }
    }

    /// The third values under `(first, second)`, in order.
    pub(crate) fn query_two(&self, first: u32, second: u32) -> (r: &[u32])
        requires
            self.wf(),
        ensures
            crate::sorted::increasing(r@),
            forall|t: u32| #[trigger] r@.contains(t) <==> self@.contains((first, second, t)),
    {
        match self.leaf_index(first, second) {
            Some(j) => {
                let ghost i = choose|i: int| self.leaf_at(first, second, i, j as int);
                proof {
                    self.lemma_bounds();
                    assert(span_ok(self.l1_off@, j as int, self.vals@.len()));
                }
                let l1_off: &[u32] = self.l1_off.as_slice();
                let s: usize = l1_off[j] as usize;
                let e: usize = l1_off[j + 1] as usize;
                let r: &[u32] = slice_subrange(self.vals.as_slice(), s, e);
                proof {
                    self.lemma_vals_segment(j as int);
                    self.lemma_l1_segment(i);
                    let seg = self.l1@.subrange(self.key_off@[i] as int, self.key_off@[i + 1] as int);
                    assert forall|t: u32| #[trigger] r@.contains(t) <==> self@.contains(
                        (first, second, t),
                    ) by {
                        if r@.contains(t) {
                            let a = choose|a: int| 0 <= a < r@.len() && r@[a] == t;
                            assert(holds_at(self.l1_off@, j as int, s + a));
                            self.lemma_at(i, j as int, s + a);
                        }
                        if self@.contains((first, second, t)) {
                            let (i2, j2, k) = self.lemma_find((first, second, t));
                            assert(i2 == i);
                            assert(seg[j2 - self.key_off@[i]] == second);
                            assert(seg[j - self.key_off@[i]] == second);
                            assert(j2 == j);
                            assert(r@[k - s] == t);
                        }
                    }
                }
                r
            },
            None => {
                let empty: &[u32] = slice_subrange(self.vals.as_slice(), 0, 0);
                assert(empty@ =~= Seq::<u32>::empty());
                empty
            },
        }
    }

    pub(crate) fn contains(&self, first: u32, second: u32, third: u32) -> (r: bool)
        requires
            self.wf(),
        ensures
            r == self@.contains((first, second, third)),
    {
        let leaf: &[u32] = self.query_two(first, second);
        proof {
            assert(leaf@.contains(third) <==> self@.contains((first, second, third)));
        }
        match find(leaf, third) {
            Ok(i) => {
                assert(leaf@[i as int] == third);
                true
            },
            Err(_) => false,
        }
    }

    /// The distinct second values under `first`, in order.
    pub(crate) fn seconds_of(&self, first: u32) -> (r: &[u32])
        requires
            self.wf(),
        ensures
            crate::sorted::increasing(r@),
            forall|s: u32|
                #[trigger] r@.contains(s) <==> exists|t: u32| self@.contains((first, s, t)),
    {
        let keys: &[u32] = self.keys.as_slice();
        proof {
            if !self.blank() {
                self.lemma_bounds();
            }
        }
        match find(keys, first) {
            Err(_) => {
                let empty: &[u32] = slice_subrange(self.vals.as_slice(), 0, 0);
                proof {
                    assert(empty@ =~= Seq::<u32>::empty());
                    assert forall|s: u32, t: u32| !self@.contains((first, s, t)) by {
                        if self@.contains((first, s, t)) {
                            let (i, j, k) = self.lemma_find((first, s, t));
                            assert(keys@.contains(keys@[i]));
                        }
                    }
                }
                empty
            },
            Ok(i) => {
                assert(span_ok(self.key_off@, i as int, self.l1@.len()));
                let key_off: &[u32] = self.key_off.as_slice();
                let start: usize = key_off[i] as usize;
                let end: usize = key_off[i + 1] as usize;
                let seg: &[u32] = slice_subrange(self.l1.as_slice(), start, end);
                proof {
                    self.lemma_l1_segment(i as int);
                    assert forall|s: u32| #[trigger] seg@.contains(s) <==> exists|t: u32|
                        self@.contains((first, s, t)) by {
                        if seg@.contains(s) {
                            let a = choose|a: int| 0 <= a < seg@.len() && seg@[a] == s;
                            let j = start + a;
                            assert(span_ok(self.l1_off@, j, self.vals@.len()));
                            assert(holds_at(self.key_off@, i as int, j));
                            assert(holds_at(self.l1_off@, j, self.l1_off@[j] as int));
                            self.lemma_at(i as int, j, self.l1_off@[j] as int);
                        }
                        if exists|t: u32| self@.contains((first, s, t)) {
                            let t = choose|t: u32| self@.contains((first, s, t));
                            let (i2, j, k) = self.lemma_find((first, s, t));
                            assert(i2 == i);
                            assert(seg@[j - start] == s);
                        }
                    }
                }
                seg
            },
        }
    }

    /// The distinct first values, in order.
    pub(crate) fn first_values(&self) -> (r: &[u32])
        requires
            self.wf(),
        ensures
            crate::sorted::increasing(r@),
            forall|f: u32|
                #[trigger] r@.contains(f) <==> exists|s: u32, t: u32| self@.contains((f, s, t)),
    {
        let keys: &[u32] = self.keys.as_slice();
        proof {
            if !self.blank() {
                self.lemma_bounds();
            }
            assert forall|f: u32| #[trigger] keys@.contains(f) <==> exists|s: u32, t: u32|
                self@.contains((f, s, t)) by {
                if keys@.contains(f) {
                    let i = choose|i: int| 0 <= i < keys@.len() && keys@[i] == f;
                    let j = self.key_off@[i] as int;
                    assert(span_ok(self.key_off@, i, self.l1@.len()));
                    let k = self.l1_off@[j] as int;
                    assert(span_ok(self.l1_off@, j, self.vals@.len()));
                    assert(holds_at(self.key_off@, i, j));
                    assert(holds_at(self.l1_off@, j, k));
                    self.lemma_at(i, j, k);
                    assert(self@.contains((f, self.l1@[j], self.vals@[k])));
                }
                if exists|s: u32, t: u32| self@.contains((f, s, t)) {
                    let (s, t) = choose|s: u32, t: u32| self@.contains((f, s, t));
                    let (i, j, k) = self.lemma_find((f, s, t));
                    assert(keys@[i] == f);
                }
            }
        }
        keys
    }

    /// All triples, in order.
    pub(crate) fn all_triples(&self) -> (r: Vec<IdTriple>)
        requires
            self.wf(),
        ensures
            r@ == self.flat(),
    {
        let keys: &[u32] = self.keys.as_slice();
        let key_off: &[u32] = self.key_off.as_slice();
        let l1: &[u32] = self.l1.as_slice();
        let l1_off: &[u32] = self.l1_off.as_slice();
        let vals: &[u32] = self.vals.as_slice();
        let mut out: Vec<IdTriple> = Vec::new();
        let mut i: usize = 0;
        proof {
            if !self.blank() {
                self.lemma_bounds();
                reveal(csr_ok);
            }
        }
        while i < keys.len()
            invariant
                i <= keys@.len(),
                self.wf(),
                keys@.len() > 0 ==> !self.blank(),
                keys@ == self.keys@,
                key_off@ == self.key_off@,
                l1@ == self.l1@,
                l1_off@ == self.l1_off@,
                vals@ == self.vals@,
                keys@.len() > 0 ==> out@.len() == l1_off@[key_off@[i as int] as int],
                keys@.len() == 0 ==> out@.len() == 0,
                out@.len() <= self.flat().len(),
                out@ == self.flat().take(out@.len() as int),
            decreases keys@.len() - i,
        {
            proof {
                self.lemma_bounds();
                assert(span_ok(self.key_off@, i as int, self.l1@.len()));
            }
            let ls: usize = key_off[i] as usize;
            let le: usize = key_off[i + 1] as usize;
            let mut j: usize = ls;
            while j < le
                invariant
                    i < keys@.len(),
                    ls <= j <= le <= l1@.len(),
                    ls == key_off@[i as int],
                    le == key_off@[i + 1],
                    self.wf(),
                    !self.blank(),
                    keys@ == self.keys@,
                    key_off@ == self.key_off@,
                    l1@ == self.l1@,
                    l1_off@ == self.l1_off@,
                    vals@ == self.vals@,
                    l1_off@.len() == l1@.len() + 1,
                    key_off@.len() == keys@.len() + 1,
                    out@.len() == l1_off@[j as int],
                    out@.len() <= self.flat().len(),
                    out@ == self.flat().take(out@.len() as int),
                decreases le - j,
            {
                proof {
                    self.lemma_bounds();
                    assert(span_ok(self.l1_off@, j as int, self.vals@.len()));
                }
                let second: u32 = l1[j];
                let ve: usize = l1_off[j + 1] as usize;
                let mut k: usize = l1_off[j] as usize;
                while k < ve
                    invariant
                        i < keys@.len(),
                        ls <= j < le <= l1@.len(),
                        ls == key_off@[i as int],
                        le == key_off@[i + 1],
                        key_off@.len() == keys@.len() + 1,
                        l1_off@.len() == l1@.len() + 1,
                        self.wf(),
                        !self.blank(),
                        keys@ == self.keys@,
                        key_off@ == self.key_off@,
                        l1@ == self.l1@,
                        l1_off@ == self.l1_off@,
                        vals@ == self.vals@,
                        second == l1@[j as int],
                        l1_off@[j as int] <= k <= ve <= vals@.len(),
                        ve == l1_off@[j + 1],
                        out@.len() == k,
                        self.flat().len() == vals@.len(),
                        out@ == self.flat().take(k as int),
                    decreases ve - k,
                {
                    out.push((keys[i], second, vals[k]));
                    proof {
                        assert(holds_at(self.key_off@, i as int, j as int));
                        assert(holds_at(self.l1_off@, j as int, k as int));
                        self.lemma_at(i as int, j as int, k as int);
                        assert(self.flat().take(k + 1) =~= self.flat().take(k as int).push(
                            self.flat()[k as int],
                        ));
                    }
                    k += 1;
                }
                j += 1;
            }
            i += 1;
        }
        proof {
            if !self.blank() {
                reveal(csr_ok);
                if keys@.len() == 0 {
                    assert(l1@.len() == 0);
                }
            }
            assert(out@.len() == self.flat().len());
            assert(self.flat().take(out@.len() as int) =~= self.flat());
        }
        out
    }

    pub(crate) fn len(&self) -> (n: usize)
        requires
            self.wf(),
        ensures
            n == self.flat().len(),
            n == self@.len(),
    {
        proof {
            self.lemma_flat();
        }
        self.vals.as_slice().len()
    }
}

impl FlatCsr {
    /// How many triples have `first` in front.
    pub(crate) fn count_one(&self, first: u32) -> (n: usize)
        requires
            self.wf(),
        ensures
            n == self@.filter(|t: IdTriple| t.0 == first).len(),
            n <= self.flat().len(),
    {
        let keys: &[u32] = self.keys.as_slice();
        let ghost under = self@.filter(|t: IdTriple| t.0 == first);
        proof {
            self.lemma_flat();
            if !self.blank() {
                self.lemma_bounds();
            }
        }
        match find(keys, first) {
            Err(_) => {
                proof {
                    assert forall|t: IdTriple| !under.contains(t) by {
                        if under.contains(t) {
                            let (i, j, k) = self.lemma_find(t);
                            assert(keys@.contains(keys@[i]));
                        }
                    }
                    assert(under =~= Set::empty());
                }
                0
            },
            Ok(i) => {
                assert(span_ok(self.key_off@, i as int, self.l1@.len()));
                let key_off: &[u32] = self.key_off.as_slice();
                let l1_off: &[u32] = self.l1_off.as_slice();
                let start: usize = key_off[i] as usize;
                let end: usize = key_off[i + 1] as usize;
                let lo: usize = l1_off[start] as usize;
                let hi: usize = l1_off[end] as usize;
                proof {
                    reveal(csr_ok);
                    assert(lo < hi <= self.vals@.len()) by {
                        if end < self.l1@.len() {
                            assert(self.l1_off@[end as int] < self.l1_off@[self.l1@.len() as int]);
                        }
                    }
                    let sub = self.flat().subrange(lo as int, hi as int);
                    assert(increasing3(sub));
                    lemma_triple_set_len(sub);
                    assert forall|t: IdTriple| triple_set(sub).contains(t) == under.contains(t) by {
                        if sub.contains(t) {
                            let a = choose|a: int| 0 <= a < sub.len() && sub[a] == t;
                            let k = lo + a;
                            lemma_owner(self.l1_off@, self.l1@.len(), self.vals@.len(), k);
                            let j = owner(self.l1_off@, k);
                            if j < start {
                                if j + 1 < start {
                                    assert(self.l1_off@[j + 1] < self.l1_off@[start as int]);
                                }
                            }
                            if j >= end {
                                if j > end {
                                    assert(self.l1_off@[end as int] < self.l1_off@[j]);
                                }
                            }
                            assert(holds_at(self.key_off@, i as int, j));
                            assert(holds_at(self.l1_off@, j, k));
                            self.lemma_at(i as int, j, k);
                            assert(self.flat()[k] == t);
                        }
                        if under.contains(t) {
                            let (i2, j, k) = self.lemma_find(t);
                            assert(i2 == i);
                            if start < j {
                                assert(self.l1_off@[start as int] < self.l1_off@[j]);
                            }
                            if j + 1 < end {
                                assert(self.l1_off@[j + 1] < self.l1_off@[end as int]);
                            }
                            self.lemma_at(i2, j, k);
                            assert(sub[k - lo] == t);
                        }
                    }
                    assert(triple_set(sub) =~= under);
                }
                hi - lo
            },
        }
    }

    /// Whether the five arrays fit together.
    pub fn is_consistent(&self) -> (ok: bool)
        requires
            self.windows_ok(),
        ensures
            ok == self.wf(),
    {
        let keys: &[u32] = self.keys.as_slice();
        let key_off: &[u32] = self.key_off.as_slice();
        let l1: &[u32] = self.l1.as_slice();
        let l1_off: &[u32] = self.l1_off.as_slice();
        let vals: &[u32] = self.vals.as_slice();
        if keys.len() == 0 && key_off.len() == 0 && l1.len() == 0 && l1_off.len() == 0 && vals.len()
            == 0 {
            return true;
        }
        proof {
            reveal(csr_ok);
        }
        is_increasing(keys) && check_offsets(key_off, keys.len(), l1.len()) && check_offsets(
            l1_off,
            l1.len(),
            vals.len(),
        ) && check_segments(key_off, l1) && check_segments(l1_off, vals)
    }
}

/// Whether a slice is strictly increasing.
fn is_increasing(v: &[u32]) -> (ok: bool)
    ensures
        ok == crate::sorted::increasing(v@),
{
    let mut i: usize = 1;
    while i < v.len()
        invariant
            1 <= i,
            forall|a: int, b: int| 0 <= a < b < i && b < v@.len() ==> v@[a] < v@[b],
        decreases v@.len() - i,
    {
        if v[i - 1] >= v[i] {
            assert(!(v@[i - 1] < v@[i as int]));
            return false;
        }
        assert forall|a: int| 0 <= a < i implies v@[a] < v@[i as int] by {
            if a < i - 1 {
                assert(v@[a] < v@[i - 1]);
            }
        }
        i += 1;
    }
    true
}

/// Whether `off` cuts `0..total` into `n` non-empty ranges.
fn check_offsets(off: &[u32], n: usize, total: usize) -> (ok: bool)
    ensures
        ok == offsets_ok(off@, n as nat, total as nat),
{
    if off.len() == 0 || off.len() - 1 != n {
        return false;
    }
    if off[0] != 0 || off[n] as usize != total {
        return false;
    }
    let ok: bool = is_increasing(off);
    proof {
        if !ok {
            let (a, b) = choose|a: int, b: int|
                0 <= a < b < off@.len() && !(off@[a] < off@[b]);
            assert(0 <= a < b <= n);
        }
    }
    ok
}

/// Whether each range holds strictly increasing values.
fn check_segments(off: &[u32], vals: &[u32]) -> (ok: bool)
    requires
        exists|n: nat| offsets_ok(off@, n, vals@.len()),
    ensures
        ok == segments_increase(off@, vals@),
{
    let ghost n = choose|n: nat| offsets_ok(off@, n, vals@.len());
    let mut j: usize = 0;
    while j < off.len() - 1
        invariant
            offsets_ok(off@, n, vals@.len()),
            j <= n,
            forall|l: int, a: int, b: int|
                #![trigger holds_at(off@, l, a), holds_at(off@, l, b)]
                l < j && holds_at(off@, l, a) && holds_at(off@, l, b) && a < b ==> vals@[a] < vals@[b],
        decreases n - j,
    {
        let lo: usize = off[j] as usize;
        let hi: usize = off[j + 1] as usize;
        proof {
            if j + 1 < n {
                assert(off@[j + 1] < off@[n as int]);
            }
            assert(off@[j as int] < off@[j + 1]);
        }
        let seg: &[u32] = slice_subrange(vals, lo, hi);
        if !is_increasing(seg) {
            proof {
                let (a, b) = choose|a: int, b: int| 0 <= a < b < seg@.len() && !(seg@[a] < seg@[b]);
                assert(holds_at(off@, j as int, lo + a));
                assert(holds_at(off@, j as int, lo + b));
                assert(vals@[lo + a] == seg@[a]);
                assert(vals@[lo + b] == seg@[b]);
            }
            return false;
        }
        proof {
            assert forall|l: int, a: int, b: int|
                #![trigger holds_at(off@, l, a), holds_at(off@, l, b)]
                l < j + 1 && holds_at(off@, l, a) && holds_at(off@, l, b) && a < b implies vals@[a]
                < vals@[b] by {
                if l == j {
                    assert(seg@[a - lo] < seg@[b - lo]);
                }
            }
        }
        j += 1;
    }
    true
}

} // verus!
