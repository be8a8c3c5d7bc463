//! Strictly increasing `u32` sequences: search, merge, insertion, removal.

use crate::order::Rank;
use vstd::prelude::*;

verus! {

/// Strictly increasing: sorted and without duplicates.
pub open spec fn increasing(s: Seq<u32>) -> bool {
    forall|i: int, j: int| 0 <= i < j < s.len() ==> s[i] < s[j]
}

/// The values that occur in a sequence.
pub open spec fn members(s: Seq<u32>) -> Set<u32> {
    Set::new(|x: u32| s.contains(x))
}

/// The members of a finite set, in order.
pub open spec fn in_order(set: Set<u32>) -> Seq<u32> {
    choose|s: Seq<u32>| #[trigger] increasing(s) && members(s) == set
}

/// An increasing sequence is its members, in order.
pub proof fn lemma_in_order(s: Seq<u32>)
    requires
        increasing(s),
    ensures
        in_order(members(s)) == s,
{
    assert(increasing(s) && members(s) == members(s));
    let t = in_order(members(s));
    assert(increasing(t) && members(t) == members(s));
    lemma_increasing_unique(t, s);
}

/// The members of a finite set can be listed in order.
pub proof fn lemma_in_order_of(set: Set<u32>)
    requires
        set.finite(),
    ensures
        increasing(in_order(set)),
        members(in_order(set)) == set,
{
    let leq = |a: u32, b: u32| a <= b;
    let s = crate::order::lemma_sorted_list(set, leq);
    assert forall|i: int, j: int| 0 <= i < j < s.len() implies s[i] < s[j] by {
        assert(leq(s[i], s[j]));
    }
    assert(members(s) =~= set);
    lemma_in_order(s);
}

/// The order of numbers, as a sorting order.
struct NumberRank {}

impl Rank<u32> for NumberRank {
    open spec fn leq(&self, a: u32, b: u32) -> bool {
        a <= b
    }

    open spec fn covers(&self, a: u32) -> bool {
        true
    }

    proof fn total(&self, a: u32, b: u32) {
    }

    proof fn transitive(&self, a: u32, b: u32, c: u32) {
    }

    fn le(&self, a: &u32, b: &u32) -> (r: bool) {
        *a <= *b
    }
}

/// The values of a list without repetitions, in order.
pub fn sort_ids(v: &[u32]) -> (out: Vec<u32>)
    requires
        v@.no_duplicates(),
    ensures
        increasing(out@),
        members(out@) == members(v@),
        out@ == in_order(members(v@)),
        out@.len() == v@.len(),
{
    let rank: NumberRank = NumberRank {  };
    let out: Vec<u32> = crate::order::merge_sort(&rank, v);
    proof {
        crate::order::lemma_same_members(out@, v@);
        v@.lemma_multiset_has_no_duplicates();
        out@.lemma_multiset_has_no_duplicates_conv();
        assert forall|i: int, j: int| 0 <= i < j < out@.len() implies out@[i] < out@[j] by {
            assert(rank.leq(out@[i], out@[j]));
        }
        assert(members(out@) =~= members(v@));
        lemma_in_order(out@);
    }
    out
}

/// The common values of two sequences, read by one merge pass: the smaller head
/// is dropped, equal heads are kept once.
pub open spec fn merge_common(a: Seq<u32>, b: Seq<u32>) -> Seq<u32>
    decreases a.len() + b.len(),
{
    if a.len() == 0 || b.len() == 0 {
        Seq::empty()
    } else if a[0] < b[0] {
        merge_common(a.drop_first(), b)
    } else if b[0] < a[0] {
        merge_common(a, b.drop_first())
    } else {
        seq![a[0]] + merge_common(a.drop_first(), b.drop_first())
    }
}

/// Two increasing sequences with the same members are the same sequence.
pub proof fn lemma_increasing_unique(a: Seq<u32>, b: Seq<u32>)
    requires
        increasing(a),
        increasing(b),
        members(a) == members(b),
    ensures
        a == b,
    decreases a.len(),
{
    if a.len() == 0 {
        if b.len() > 0 {
            assert(members(b).contains(b[0]));
            assert(a.contains(b[0]));
        }
        assert(a =~= b);
    } else {
        assert(members(a).contains(a[0]));
        assert(b.contains(a[0]));
        let k = choose|k: int| 0 <= k < b.len() && b[k] == a[0];
        assert(members(b).contains(b[0]));
        assert(a.contains(b[0]));
        let m = choose|m: int| 0 <= m < a.len() && a[m] == b[0];
        assert(a[0] == b[0]);
        let a1 = a.drop_first();
        let b1 = b.drop_first();
        assert forall|x: u32| members(a1).contains(x) == members(b1).contains(x) by {
            if a1.contains(x) {
                let i = choose|i: int| 0 <= i < a1.len() && a1[i] == x;
                assert(a[i + 1] == x);
                assert(a.contains(x));
                assert(members(a).contains(x));
                assert(b.contains(x));
                let j = choose|j: int| 0 <= j < b.len() && b[j] == x;
                assert(j != 0);
                assert(b1[j - 1] == x);
                assert(b1.contains(x));
            }
            if b1.contains(x) {
                let i = choose|i: int| 0 <= i < b1.len() && b1[i] == x;
                assert(b[i + 1] == x);
                assert(b.contains(x));
                assert(members(b).contains(x));
                assert(a.contains(x));
                let j = choose|j: int| 0 <= j < a.len() && a[j] == x;
                assert(j != 0);
                assert(a1[j - 1] == x);
                assert(a1.contains(x));
            }
        }
        assert(members(a1) =~= members(b1));
        lemma_increasing_unique(a1, b1);
        assert(a =~= seq![a[0]] + a1);
        assert(b =~= seq![b[0]] + b1);
    }
}

/// On increasing inputs the merge is the set intersection, itself increasing.
pub proof fn lemma_merge_common(a: Seq<u32>, b: Seq<u32>)
    requires
        increasing(a),
        increasing(b),
    ensures
        increasing(merge_common(a, b)),
        forall|x: u32| #[trigger] merge_common(a, b).contains(x) <==> a.contains(x) && b.contains(x),
    decreases a.len() + b.len(),
{
    let m = merge_common(a, b);
    if a.len() == 0 || b.len() == 0 {
    } else {
        let a1 = a.drop_first();
        let b1 = b.drop_first();
        assert(a =~= seq![a[0]] + a1);
        assert(b =~= seq![b[0]] + b1);
        assert forall|x: u32| a.contains(x) <==> x == a[0] || a1.contains(x) by {
            if a.contains(x) && x != a[0] {
                let i = choose|i: int| 0 <= i < a.len() && a[i] == x;
                assert(a1[i - 1] == x);
            }
            if a1.contains(x) {
                let i = choose|i: int| 0 <= i < a1.len() && a1[i] == x;
                assert(a[i + 1] == x);
            }
        }
        assert forall|x: u32| b.contains(x) <==> x == b[0] || b1.contains(x) by {
            if b.contains(x) && x != b[0] {
                let i = choose|i: int| 0 <= i < b.len() && b[i] == x;
                assert(b1[i - 1] == x);
            }
            if b1.contains(x) {
                let i = choose|i: int| 0 <= i < b1.len() && b1[i] == x;
                assert(b[i + 1] == x);
            }
        }
        if a[0] < b[0] {
            lemma_merge_common(a1, b);
        } else if b[0] < a[0] {
            lemma_merge_common(a, b1);
        } else {
            lemma_merge_common(a1, b1);
            let r = merge_common(a1, b1);
            assert forall|i: int, j: int| 0 <= i < j < m.len() implies m[i] < m[j] by {
                assert(r.contains(m[j])) by {
                    assert(m[j] == r[j - 1]);
                }
                if i > 0 {
                    assert(m[i] == r[i - 1]);
                    assert(m[j] == r[j - 1]);
                } else {
                    assert(a1.contains(m[j]));
                }
            }
            assert forall|x: u32| #[trigger] m.contains(x) <==> a.contains(x) && b.contains(x) by {
                if m.contains(x) && x != a[0] {
                    let i = choose|i: int| 0 <= i < m.len() && m[i] == x;
                    assert(r[i - 1] == x);
                    assert(r.contains(x));
                }
                if a.contains(x) && b.contains(x) {
                    if x == a[0] {
                        assert(m[0] == x);
                    } else {
                        assert(r.contains(x));
                        let i = choose|i: int| 0 <= i < r.len() && r[i] == x;
                        assert(m[i + 1] == x);
                    }
                }
            }
        }
    }
}

/// Position of `x` in an increasing slice, or the position where it belongs.
pub fn find(v: &[u32], x: u32) -> (r: Result<usize, usize>)
    requires
        increasing(v@),
    ensures
        match r {
            Ok(i) => i < v@.len() && v@[i as int] == x,
            Err(i) => i <= v@.len() && !v@.contains(x) && (forall|k: int| 0 <= k < i ==> v@[k] < x)
                && (forall|k: int| i <= k < v@.len() ==> x < v@[k]),
        },
{
    let mut lo: usize = 0;
    let mut hi: usize = v.len();
    while lo < hi
        invariant
            lo <= hi <= v@.len(),
            increasing(v@),
            forall|k: int| 0 <= k < lo ==> v@[k] < x,
            forall|k: int| hi <= k < v@.len() ==> x < v@[k],
        decreases hi - lo,
    {
        let mid: usize = lo + (hi - lo) / 2;
        let y: u32 = v[mid];
        if y < x {
            lo = mid + 1;
        } else if x < y {
            hi = mid;
        } else {
            return Ok(mid);
        }
    }
    Err(lo)
}

/// Intersection of two sorted slices via a classic merge.
pub fn intersect_sorted(a: &[u32], b: &[u32]) -> (result: Vec<u32>)
    ensures
        result@ == merge_common(a@, b@),
        increasing(a@) && increasing(b@) ==> increasing(result@) && members(result@) == members(
            a@,
        ).intersect(members(b@)),
{
    let mut result: Vec<u32> = Vec::new();
    let mut i: usize = 0;
    let mut j: usize = 0;
    proof {
        assert(a@.skip(0) =~= a@);
        assert(b@.skip(0) =~= b@);
        assert(result@ + merge_common(a@, b@) =~= merge_common(a@, b@));
    }
    while i < a.len() && j < b.len()
        invariant
            i <= a@.len(),
            j <= b@.len(),
            result@ + merge_common(a@.skip(i as int), b@.skip(j as int)) == merge_common(a@, b@),
        decreases a@.len() - i + b@.len() - j,
    {
        let x: u32 = a[i];
        let y: u32 = b[j];
        proof {
            assert(a@.skip(i as int).drop_first() =~= a@.skip(i + 1));
            assert(b@.skip(j as int).drop_first() =~= b@.skip(j + 1));
        }
        if x < y {
            i += 1;
        } else if y < x {
            j += 1;
        } else {
            let ghost before = result@;
            result.push(x);
            i += 1;
            j += 1;
            proof {
                let rest = merge_common(a@.skip(i as int), b@.skip(j as int));
                assert(before + (seq![x] + rest) =~= result@ + rest);
            }
        }
    }
    proof {
        assert(result@ + Seq::<u32>::empty() =~= result@);
        if increasing(a@) && increasing(b@) {
            lemma_merge_common(a@, b@);
            assert(members(result@) =~= members(a@).intersect(members(b@)));
        }
    }
    result
}

/// `(base ∪ ins) \ del` for three increasing slices, `base` and `ins` disjoint.
pub fn merge_union_minus(base: &[u32], ins: &[u32], del: &[u32]) -> (out: Vec<u32>)
    requires
        increasing(base@),
        increasing(ins@),
        increasing(del@),
        forall|x: u32| !(base@.contains(x) && ins@.contains(x)),
    ensures
        increasing(out@),
        members(out@) == members(base@).union(members(ins@)).difference(members(del@)),
{
    let mut out: Vec<u32> = Vec::new();
    let mut i: usize = 0;
    let mut j: usize = 0;
    while i < base.len() || j < ins.len()
        invariant
            i <= base@.len(),
            j <= ins@.len(),
            increasing(base@),
            increasing(ins@),
            increasing(del@),
            increasing(out@),
            forall|x: u32| !(base@.contains(x) && ins@.contains(x)),
            forall|k: int, l: int| 0 <= k < out@.len() && i <= l < base@.len() ==> out@[k] < base@[l],
            forall|k: int, l: int| 0 <= k < out@.len() && j <= l < ins@.len() ==> out@[k] < ins@[l],
            forall|k: int, l: int| 0 <= k < i && j <= l < ins@.len() ==> base@[k] < ins@[l],
            forall|k: int, l: int| 0 <= k < j && i <= l < base@.len() ==> ins@[k] < base@[l],
            forall|x: u32|
                #[trigger] out@.contains(x) <==> (base@.take(i as int).contains(x) || ins@.take(
                    j as int,
                ).contains(x)) && !del@.contains(x),
        decreases base@.len() - i + ins@.len() - j,
    {
        let ghost i0 = i;
        let ghost j0 = j;
        let take_base: bool = if i < base.len() {
            if j < ins.len() {
                base[i] <= ins[j]
            } else {
                true
            }
        } else {
            false
        };
        proof {
            if i < base@.len() && j < ins@.len() {
                assert(base@.contains(base@[i as int]));
                assert(ins@.contains(ins@[j as int]));
            }
        }
        let v: u32 = if take_base {
            base[i]
        } else {
            ins[j]
        };
        if take_base {
            i += 1;
        } else {
            j += 1;
        }
        let ghost before = out@;
        let keep: bool = match find(del, v) {
            Ok(_) => false,
            Err(_) => true,
        };
        if keep {
            out.push(v);
        }
        proof {
            assert(keep <==> !del@.contains(v));
            assert forall|x: u32| base@.take(i as int).contains(x) || ins@.take(j as int).contains(x)
                <==> base@.take(i0 as int).contains(x) || ins@.take(j0 as int).contains(x) || x == v by {
                if take_base {
                    assert(base@.take(i as int) =~= base@.take(i0 as int).push(v));
                    lemma_push_contains(base@.take(i0 as int), v, x);
                } else {
                    assert(ins@.take(j as int) =~= ins@.take(j0 as int).push(v));
                    lemma_push_contains(ins@.take(j0 as int), v, x);
                }
            }
            assert forall|x: u32|
                #[trigger] out@.contains(x) <==> (base@.take(i as int).contains(x) || ins@.take(
                    j as int,
                ).contains(x)) && !del@.contains(x) by {
                if keep {
                    lemma_push_contains(before, v, x);
                }
                assert(before.contains(x) <==> (base@.take(i0 as int).contains(x) || ins@.take(
                    j0 as int,
                ).contains(x)) && !del@.contains(x));
            }
        }
    }
    proof {
        assert(base@.take(i as int) =~= base@);
        assert(ins@.take(j as int) =~= ins@);
        assert(members(out@) =~= members(base@).union(members(ins@)).difference(members(del@)));
    }
    out
}

pub proof fn lemma_push_contains(s: Seq<u32>, v: u32, x: u32)
    ensures
        s.push(v).contains(x) <==> s.contains(x) || x == v,
{
    if s.contains(x) {
        let k = choose|k: int| 0 <= k < s.len() && s[k] == x;
        assert(s.push(v)[k] == x);
    }
    assert(s.push(v)[s.len() as int] == v);
    if s.push(v).contains(x) && x != v {
        let k = choose|k: int| 0 <= k < s.push(v).len() && s.push(v)[k] == x;
        assert(s[k] == x);
    }
}

/// Inserts `val` in order, if it is not there yet.
pub fn sorted_insert(vec: &mut Vec<u32>, val: u32)
    requires
        increasing(old(vec)@),
    ensures
        increasing(final(vec)@),
        members(final(vec)@) == members(old(vec)@).insert(val),
{
    let ghost before = vec@;
    match find(vec.as_slice(), val) {
        Ok(i) => {
            proof {
                assert(before.contains(val));
                assert(members(vec@) =~= members(before).insert(val));
            }
        },
        Err(pos) => {
            vec.insert(pos, val);
            proof {
                assert(vec@ =~= before.insert(pos as int, val));
                assert forall|x: u32| #[trigger] members(vec@).contains(x) == members(before).insert(
                    val,
                ).contains(x) by {
                    if before.contains(x) {
                        let k = choose|k: int| 0 <= k < before.len() && before[k] == x;
                        if k < pos {
                            assert(vec@[k] == x);
                        } else {
                            assert(vec@[k + 1] == x);
                        }
                    }
                    assert(vec@[pos as int] == val);
                    if vec@.contains(x) {
                        let k = choose|k: int| 0 <= k < vec@.len() && vec@[k] == x;
                        if k < pos {
                            assert(before[k] == x);
                        } else if k > pos {
                            assert(before[k - 1] == x);
                        }
                    }
                }
                assert(members(vec@) =~= members(before).insert(val));
            }
        },
    }
}

/// Removes `val`, if it is there; says whether it was.
pub fn sorted_remove(vec: &mut Vec<u32>, val: u32) -> (found: bool)
    requires
        increasing(old(vec)@),
    ensures
        increasing(final(vec)@),
        found == old(vec)@.contains(val),
        members(final(vec)@) == members(old(vec)@).remove(val),
        !found ==> final(vec)@ == old(vec)@,
{
    let ghost before = vec@;
    match find(vec.as_slice(), val) {
        Ok(pos) => {
            let _gone: u32 = vec.remove(pos);
            proof {
                assert(vec@ =~= before.remove(pos as int));
                assert forall|x: u32| #[trigger] members(vec@).contains(x) == members(before).remove(
                    val,
                ).contains(x) by {
                    if before.contains(x) && x != val {
                        let k = choose|k: int| 0 <= k < before.len() && before[k] == x;
                        if k < pos {
                            assert(vec@[k] == x);
                        } else {
                            assert(vec@[k - 1] == x);
                        }
                    }
                    if vec@.contains(x) {
                        let k = choose|k: int| 0 <= k < vec@.len() && vec@[k] == x;
                        if k < pos {
                            assert(before[k] == x);
                        } else {
                            assert(before[k + 1] == x);
                        }
                    }
                }
                assert(members(vec@) =~= members(before).remove(val));
                assert(before[pos as int] == val);
            }
            true
        },
        Err(_) => {
            proof {
                assert(members(vec@) =~= members(before).remove(val));
            }
            false
        },
    }
}

} // verus!
