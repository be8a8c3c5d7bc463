//! What the estimates of the planner count.

use crate::hypertrie::csr::IdTriple;
use crate::hypertrie::index::under;
use crate::hypertrie::permutations::{as_osp, as_pos, lemma_turned_len, objects, predicates, subjects, Permutations};
use crate::hypertrie::planner::PatTerm;
use crate::hypertrie::stats::estimate;
use vstd::prelude::*;

verus! {

/// The identifier can stand at the position.
pub open spec fn suits(t: PatTerm, id: u32) -> bool {
    match t {
        PatTerm::Bound(x) => id == x,
        PatTerm::Variable(_) => true,
    }
}

/// The stored triples that suit a triple pattern, position by position.
pub open spec fn suiting(set: Set<IdTriple>, s: PatTerm, p: PatTerm, o: PatTerm) -> Set<IdTriple> {
    set.filter(|x: IdTriple| suits(s, x.0) && suits(p, x.1) && suits(o, x.2))
}

/// What stands for the triples of a set, one for each, is as many as they are.
pub proof fn lemma_count<A>(found: Set<A>, all: Set<IdTriple>, f: spec_fn(A) -> IdTriple)
    requires
        all.finite(),
        forall|a: A, b: A| #[trigger] f(a) == #[trigger] f(b) ==> a == b,
        forall|a: A| #[trigger] found.contains(a) <==> all.contains(f(a)),
        forall|x: IdTriple| #[trigger] all.contains(x) ==> exists|a: A| x == #[trigger] f(a),
    ensures
        found.len() == all.len(),
    decreases all.len(),
{
    if all.len() == 0 {
        assert(all =~= Set::<IdTriple>::empty());
        assert(found =~= Set::<A>::empty());
    } else {
        let x = all.choose();
        let a = choose|a: A| x == #[trigger] f(a);
        let less = found.remove(a);
        let rest = all.remove(x);
        assert forall|b: A| #[trigger] less.contains(b) <==> rest.contains(f(b)) by {}
        assert forall|y: IdTriple| #[trigger] rest.contains(y) implies exists|b: A| y == #[trigger] f(b) by {
            assert(all.contains(y));
        }
        lemma_count(less, rest, f);
        assert(found.contains(a));
        assert(found =~= less.insert(a));
        assert(!less.contains(a));
        assert(less.finite()) by {
            lemma_finite(less, rest, f);
        }
    }
}

/// What stands for the triples of a finite set is finite.
pub proof fn lemma_finite<A>(found: Set<A>, all: Set<IdTriple>, f: spec_fn(A) -> IdTriple)
    requires
        all.finite(),
        forall|a: A, b: A| #[trigger] f(a) == #[trigger] f(b) ==> a == b,
        forall|a: A| #[trigger] found.contains(a) <==> all.contains(f(a)),
        forall|x: IdTriple| #[trigger] all.contains(x) ==> exists|a: A| x == #[trigger] f(a),
    ensures
        found.finite(),
    decreases all.len(),
{
    if all.len() == 0 {
        assert(found =~= Set::<A>::empty());
    } else {
        let x = all.choose();
        let a = choose|a: A| x == #[trigger] f(a);
        let less = found.remove(a);
        let rest = all.remove(x);
        assert forall|b: A| #[trigger] less.contains(b) <==> rest.contains(f(b)) by {}
        assert forall|y: IdTriple| #[trigger] rest.contains(y) implies exists|b: A| y == #[trigger] f(b) by {
            assert(all.contains(y));
        }
        lemma_finite(less, rest, f);
        assert(found =~= less.insert(a));
    }
}

/// Once the deltas have been folded in, the estimate for a triple pattern is the number of
/// stored triples that suit it; a pattern without variables counts as one.
pub proof fn law_estimates(index: &Permutations, s: PatTerm, p: PatTerm, o: PatTerm)
    requires
        index.wf(),
        index.folded(),
    ensures
        estimate(index, s, p, o) == if s is Bound && p is Bound && o is Bound {
            1
        } else {
            suiting(index.triples(), s, p, o).len()
        },
{
    let set = index.triples();
    let all = suiting(set, s, p, o);
    index.lemma_wf();
    set.lemma_len_filter(|x: IdTriple| suits(s, x.0) && suits(p, x.1) && suits(o, x.2));
    lemma_turned_len(all);
    match (s, p, o) {
        (PatTerm::Bound(a), PatTerm::Bound(b), PatTerm::Variable(_)) => {
            let f = |c: u32| (a, b, c);
            assert forall|x: IdTriple| #[trigger] all.contains(x) implies exists|c: u32| x == #[trigger] f(c) by {
                assert(x == f(x.2));
            }
            lemma_count(objects(set, a, b), all, f);
        },
        (PatTerm::Variable(_), PatTerm::Bound(b), PatTerm::Bound(c)) => {
            let f = |a: u32| (a, b, c);
            assert forall|x: IdTriple| #[trigger] all.contains(x) implies exists|a: u32| x == #[trigger] f(a) by {
                assert(x == f(x.0));
            }
            lemma_count(subjects(set, b, c), all, f);
        },
        (PatTerm::Bound(a), PatTerm::Variable(_), PatTerm::Bound(c)) => {
            let f = |b: u32| (a, b, c);
            assert forall|x: IdTriple| #[trigger] all.contains(x) implies exists|b: u32| x == #[trigger] f(b) by {
                assert(x == f(x.1));
            }
            lemma_count(predicates(set, a, c), all, f);
        },
        (PatTerm::Bound(a), PatTerm::Variable(_), PatTerm::Variable(_)) => {
            index.law_degrees_of(a);
            assert(all =~= under(set, a));
        },
        (PatTerm::Variable(_), PatTerm::Bound(b), PatTerm::Variable(_)) => {
            index.law_degrees_of(b);
            assert(as_pos(all) =~= under(as_pos(set), b));
        },
        (PatTerm::Variable(_), PatTerm::Variable(_), PatTerm::Bound(c)) => {
            index.law_degrees_of(c);
            assert(as_osp(all) =~= under(as_osp(set), c));
        },
        (PatTerm::Variable(_), PatTerm::Variable(_), PatTerm::Variable(_)) => {
            assert(all =~= set);
        },
        _ => {},
    }
}

} // verus!
