//! Sorting by a total order.

use vstd::prelude::*;

verus! {

/// A total preorder on `T` that executable code can decide.
pub trait Rank<T> {
    /// Whether `a` comes no later than `b`.
    spec fn leq(&self, a: T, b: T) -> bool;

    /// The values that the order is defined on.
    spec fn covers(&self, a: T) -> bool;

    proof fn total(&self, a: T, b: T)
        requires
            self.covers(a),
            self.covers(b),
        ensures
            self.leq(a, b) || self.leq(b, a),
    ;

    proof fn transitive(&self, a: T, b: T, c: T)
        requires
            self.covers(a),
            self.covers(b),
            self.covers(c),
            self.leq(a, b),
            self.leq(b, c),
        ensures
            self.leq(a, c),
    ;

    fn le(&self, a: &T, b: &T) -> (r: bool)
        requires
            self.covers(*a),
            self.covers(*b),
        ensures
            r == self.leq(*a, *b),
    ;
}

/// Every item comes no later than the items after it.
pub open spec fn ranked<T, R: Rank<T>>(rank: &R, s: Seq<T>) -> bool {
    forall|i: int, j: int| #![trigger s[i], s[j]] 0 <= i < j < s.len() ==> rank.leq(s[i], s[j])
}

pub open spec fn covered<T, R: Rank<T>>(rank: &R, s: Seq<T>) -> bool {
    forall|i: int| 0 <= i < s.len() ==> rank.covers(#[trigger] s[i])
}

proof fn lemma_push_multiset<T>(s: Seq<T>, x: T)
    ensures
        s.push(x).to_multiset() =~= s.to_multiset().insert(x),
{
    broadcast use vstd::seq_lib::group_to_multiset_ensures;

}

/// Sequences with the same items, counted, have the same members.
pub proof fn lemma_same_members<T>(a: Seq<T>, b: Seq<T>)
    requires
        a.to_multiset() == b.to_multiset(),
    ensures
        forall|x: T| a.contains(x) <==> b.contains(x),
        a.len() == b.len(),
{
    broadcast use vstd::seq_lib::group_to_multiset_ensures;

    assert forall|x: T| a.contains(x) <==> b.contains(x) by {
        assert(a.contains(x) <==> a.to_multiset().count(x) > 0);
        assert(b.contains(x) <==> b.to_multiset().count(x) > 0);
    }
    assert(a.to_multiset().len() == a.len());
    assert(b.to_multiset().len() == b.len());
}

fn merge<T: Copy, R: Rank<T>>(rank: &R, a: &[T], b: &[T]) -> (out: Vec<T>)
    requires
        covered(rank, a@),
        covered(rank, b@),
        ranked(rank, a@),
        ranked(rank, b@),
    ensures
        ranked(rank, out@),
        covered(rank, out@),
        out@.to_multiset() == a@.to_multiset().add(b@.to_multiset()),
{
    let mut out: Vec<T> = Vec::new();
    let mut i: usize = 0;
    let mut j: usize = 0;
    proof {
        broadcast use vstd::seq_lib::group_to_multiset_ensures;

        assert(a@.take(0) =~= Seq::empty());
        assert(b@.take(0) =~= Seq::empty());
        assert(out@.to_multiset() =~= a@.take(0).to_multiset().add(b@.take(0).to_multiset()));
    }
    while i < a.len() || j < b.len()
        invariant
            i <= a@.len(),
            j <= b@.len(),
            covered(rank, a@),
            covered(rank, b@),
            covered(rank, out@),
            ranked(rank, a@),
            ranked(rank, b@),
            ranked(rank, out@),
            forall|k: int, l: int| 0 <= k < out@.len() && i <= l < a@.len() ==> rank.leq(out@[k], a@[l]),
            forall|k: int, l: int| 0 <= k < out@.len() && j <= l < b@.len() ==> rank.leq(out@[k], b@[l]),
            out@.to_multiset() == a@.take(i as int).to_multiset().add(b@.take(j as int).to_multiset()),
        decreases a@.len() - i + b@.len() - j,
    {
        let from_a: bool = if i < a.len() {
            if j < b.len() {
                rank.le(&a[i], &b[j])
            } else {
                true
            }
        } else {
            false
        };
        let ghost before = out@;
        let ghost i0 = i as int;
        let ghost j0 = j as int;
        if from_a {
            out.push(a[i]);
            proof {
                let x = a@[i0];
                assert forall|l: int| j0 <= l < b@.len() implies rank.leq(x, b@[l]) by {
                    if l > j0 {
                        rank.transitive(x, b@[j0], b@[l]);
                    }
                }
                assert(a@.take(i0 + 1) =~= a@.take(i0).push(x));
                lemma_push_multiset(a@.take(i0), x);
                lemma_push_multiset(before, x);
                assert(out@.to_multiset() =~= a@.take(i0 + 1).to_multiset().add(
                    b@.take(j0).to_multiset(),
                ));
            }
            i += 1;
        } else {
            out.push(b[j]);
            proof {
                let x = b@[j0];
                assert forall|l: int| i0 <= l < a@.len() implies rank.leq(x, a@[l]) by {
                    rank.total(a@[i0], x);
                    if l > i0 {
                        rank.transitive(x, a@[i0], a@[l]);
                    }
                }
                assert(b@.take(j0 + 1) =~= b@.take(j0).push(x));
                lemma_push_multiset(b@.take(j0), x);
                lemma_push_multiset(before, x);
                assert(out@.to_multiset() =~= a@.take(i0).to_multiset().add(
                    b@.take(j0 + 1).to_multiset(),
                ));
            }
            j += 1;
        }
    }
    proof {
        assert(a@.take(i as int) =~= a@);
        assert(b@.take(j as int) =~= b@);
    }
    out
}

/// Sorts by `rank`.
pub fn merge_sort<T: Copy, R: Rank<T>>(rank: &R, v: &[T]) -> (out: Vec<T>)
    requires
        covered(rank, v@),
    ensures
        ranked(rank, out@),
        out@.to_multiset() == v@.to_multiset(),
        covered(rank, out@),
    decreases v@.len(),
{
    if v.len() <= 1 {
        let mut out: Vec<T> = Vec::new();
        if v.len() == 1 {
            out.push(v[0]);
        }
        assert(out@ =~= v@);
        return out;
    }
    let mid: usize = v.len() / 2;
    let (left, right) = v.split_at(mid);
    let a: Vec<T> = merge_sort(rank, left);
    let b: Vec<T> = merge_sort(rank, right);
    let out: Vec<T> = merge(rank, a.as_slice(), b.as_slice());
    proof {
        assert(v@ =~= left@ + right@);
        vstd::seq_lib::lemma_multiset_commutative(left@, right@);
    }
    out
}

proof fn lemma_listed<T>(set: Set<T>)
    requires
        set.finite(),
    ensures
        set.to_seq().no_duplicates(),
        set.to_seq().to_set() == set,
    decreases set.len(),
{
    set.lemma_to_seq_to_set_id();
    if set.len() != 0 {
        let x = set.choose();
        let rest = set.remove(x);
        lemma_listed(rest);
        let tail = rest.to_seq();
        let all = set.to_seq();
        assert(all == Seq::<T>::empty().push(x) + tail);
        assert forall|i: int, j: int| 0 <= i < all.len() && 0 <= j < all.len() && i != j implies all[i]
            != all[j] by {
            assert forall|k: int| 0 <= k < tail.len() implies #[trigger] tail[k] != x by {
                assert(tail.to_set().contains(tail[k]));
            }
            if i == 0 {
                assert(all[j] == tail[j - 1]);
            } else if j == 0 {
                assert(all[i] == tail[i - 1]);
            } else {
                assert(all[i] == tail[i - 1] && all[j] == tail[j - 1]);
            }
        }
    }
}

/// Every finite set can be listed in order, each member once.
pub proof fn lemma_sorted_list<T>(set: Set<T>, leq: spec_fn(T, T) -> bool) -> (s: Seq<T>)
    requires
        set.finite(),
        vstd::relations::total_ordering(leq),
    ensures
        vstd::relations::sorted_by(s, leq),
        s.no_duplicates(),
        forall|x: T| #[trigger] s.contains(x) <==> set.contains(x),
{
    let l = set.to_seq();
    lemma_listed(set);
    l.lemma_sort_by_ensures(leq);
    let s = l.sort_by(leq);
    lemma_same_members(l, s);
    l.lemma_multiset_has_no_duplicates();
    s.lemma_multiset_has_no_duplicates_conv();
    assert forall|x: T| #[trigger] s.contains(x) <==> set.contains(x) by {
        assert(l.to_set().contains(x) <==> l.contains(x));
    }
    s
}

} // verus!
