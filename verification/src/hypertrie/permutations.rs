//! The triples of a store in three orders, with the subjects of each predicate.

use crate::fxmap::{fx_get, fx_insert, fx_new, fx_remove};
use crate::hypertrie::csr::{triple_set, FlatCsr, IdTriple};
use crate::hypertrie::index::{clamped, cow_len, times, LayeredIndex};
use crate::sorted::{sorted_insert, sorted_remove};
use rustc_hash::FxHashMap;
use std::borrow::Cow;
use vstd::prelude::*;

verus! {

/// A position in a triple.
#[derive(Debug, Clone, Copy, PartialEq, Eq, Structural)]
pub enum Var {
    S,
    P,
    O,
}

/// A position of a query: a known identifier or anything.
#[derive(Debug, Clone, Copy, PartialEq, Eq, Structural)]
pub enum Term {
    Bound(u32),
    Wildcard,
}

/// What a query gives, by the number of its wildcards.
pub enum QueryResult<'a> {
    /// No wildcard: whether the triple is stored.
    Exact(bool),
    /// One wildcard: its values, in order.
    Single(Var, Cow<'a, [u32]>),
    /// Two wildcards: their values, in order.
    Double(Var, Var, Vec<(u32, u32)>),
    /// Nothing known: all triples, in order.
    All(Vec<IdTriple>),
}

/// The values that answer a query.
pub enum Answer {
    Exact(bool),
    Single(Var, Seq<u32>),
    Double(Var, Var, Seq<(u32, u32)>),
    All(Seq<IdTriple>),
}

impl<'a> View for QueryResult<'a> {
    type V = Answer;

    open spec fn view(&self) -> Answer {
        match self {
            QueryResult::Exact(b) => Answer::Exact(*b),
            QueryResult::Single(v, c) => Answer::Single(*v, c@),
            QueryResult::Double(v, w, ps) => Answer::Double(*v, *w, ps@),
            QueryResult::All(ts) => Answer::All(ts@),
        }
    }
}

// --- What a set of triples answers -----------------------------------------

/// The objects of `(s, p)`.
pub open spec fn objects(set: Set<IdTriple>, s: u32, p: u32) -> Set<u32> {
    Set::new(|o: u32| set.contains((s, p, o)))
}

/// The subjects of `(p, o)`.
pub open spec fn subjects(set: Set<IdTriple>, p: u32, o: u32) -> Set<u32> {
    Set::new(|s: u32| set.contains((s, p, o)))
}

/// The predicates between `s` and `o`.
pub open spec fn predicates(set: Set<IdTriple>, s: u32, o: u32) -> Set<u32> {
    Set::new(|p: u32| set.contains((s, p, o)))
}

/// The subjects that have predicate `p`.
pub open spec fn subjects_having(set: Set<IdTriple>, p: u32) -> Set<u32> {
    Set::new(|s: u32| exists|o: u32| set.contains((s, p, o)))
}

/// The objects that predicate `p` leads to.
pub open spec fn objects_having(set: Set<IdTriple>, p: u32) -> Set<u32> {
    Set::new(|o: u32| exists|s: u32| set.contains((s, p, o)))
}

/// Whether predicate `p` occurs.
pub open spec fn predicate_occurs(set: Set<IdTriple>, p: u32) -> bool {
    exists|s: u32, o: u32| set.contains((s, p, o))
}

/// The `(p, o)` pairs of subject `s`.
pub open spec fn po_pairs(set: Set<IdTriple>, s: u32) -> Set<(u32, u32)> {
    Set::new(|q: (u32, u32)| set.contains((s, q.0, q.1)))
}

/// The `(o, s)` pairs of predicate `p`.
pub open spec fn os_pairs(set: Set<IdTriple>, p: u32) -> Set<(u32, u32)> {
    Set::new(|q: (u32, u32)| set.contains((q.1, p, q.0)))
}

/// The `(s, p)` pairs of object `o`.
pub open spec fn sp_pairs(set: Set<IdTriple>, o: u32) -> Set<(u32, u32)> {
    Set::new(|q: (u32, u32)| set.contains((q.0, q.1, o)))
}

/// The answer of a set of triples to a query.
pub open spec fn answer(set: Set<IdTriple>, s: Term, p: Term, o: Term) -> Answer {
    match (s, p, o) {
        (Term::Bound(sv), Term::Bound(pv), Term::Bound(ov)) => Answer::Exact(
            set.contains((sv, pv, ov)),
        ),
        (Term::Bound(sv), Term::Bound(pv), Term::Wildcard) => Answer::Single(
            Var::O,
            crate::sorted::in_order(objects(set, sv, pv)),
        ),
        (Term::Wildcard, Term::Bound(pv), Term::Bound(ov)) => Answer::Single(
            Var::S,
            crate::sorted::in_order(subjects(set, pv, ov)),
        ),
        (Term::Bound(sv), Term::Wildcard, Term::Bound(ov)) => Answer::Single(
            Var::P,
            crate::sorted::in_order(predicates(set, sv, ov)),
        ),
        (Term::Bound(sv), Term::Wildcard, Term::Wildcard) => Answer::Double(
            Var::P,
            Var::O,
            crate::hypertrie::csr::pairs_in_order(po_pairs(set, sv)),
        ),
        (Term::Wildcard, Term::Bound(pv), Term::Wildcard) => Answer::Double(
            Var::O,
            Var::S,
            crate::hypertrie::csr::pairs_in_order(os_pairs(set, pv)),
        ),
        (Term::Wildcard, Term::Wildcard, Term::Bound(ov)) => Answer::Double(
            Var::S,
            Var::P,
            crate::hypertrie::csr::pairs_in_order(sp_pairs(set, ov)),
        ),
        (Term::Wildcard, Term::Wildcard, Term::Wildcard) => Answer::All(
            crate::hypertrie::csr::triples_in_order(set),
        ),
    }
}

/// The triples turned to predicate, object, subject.
pub open spec fn as_pos(set: Set<IdTriple>) -> Set<IdTriple> {
    Set::new(|t: IdTriple| set.contains((t.2, t.0, t.1)))
}

/// The triples turned to object, subject, predicate.
pub open spec fn as_osp(set: Set<IdTriple>) -> Set<IdTriple> {
    Set::new(|t: IdTriple| set.contains((t.1, t.2, t.0)))
}

/// Turning keeps the number of triples.
pub proof fn lemma_turned_len(set: Set<IdTriple>)
    requires
        set.finite(),
    ensures
        as_pos(set).finite(),
        as_osp(set).finite(),
        as_pos(set).len() == set.len(),
        as_osp(set).len() == set.len(),
    decreases set.len(),
{
    if set.len() == 0 {
        assert(set =~= Set::<IdTriple>::empty());
        assert(as_pos(set) =~= Set::<IdTriple>::empty());
        assert(as_osp(set) =~= Set::<IdTriple>::empty());
    } else {
        let t = set.choose();
        let rest = set.remove(t);
        lemma_turned_len(rest);
        assert(as_pos(set) =~= as_pos(rest).insert((t.1, t.2, t.0)));
        assert(as_osp(set) =~= as_osp(rest).insert((t.2, t.0, t.1)));
    }
}

/// Per predicate its subjects, in order, and no entry for other predicates.
spec fn pred_ok(m: Map<u64, Vec<u32>>, set: Set<IdTriple>) -> bool {
    forall|p: u32|
        #![trigger m.contains_key(p as u64)]
        (m.contains_key(p as u64) <==> predicate_occurs(set, p)) && (m.contains_key(p as u64) ==> {
            &&& crate::sorted::increasing(m[p as u64]@)
            &&& crate::sorted::members(m[p as u64]@) == subjects_having(set, p)
        })
}

/// Lists `s` among the subjects of `p`, for the triple `(s, p, o)`.
fn add_subject(m: &mut FxHashMap<u64, Vec<u32>>, s: u32, p: u32, Ghost(set0): Ghost<Set<IdTriple>>, o: u32)
    requires
        pred_ok(old(m)@, set0),
    ensures
        pred_ok(final(m)@, set0.insert((s, p, o))),
{
    let ghost m0 = m@;
    let key: u64 = p as u64;
    proof {
        assert(m0.contains_key(p as u64) ==> crate::sorted::increasing(m0[p as u64]@));
    }
    let mut subs: Vec<u32> = match fx_remove(m, key) {
        Some(v) => v,
        None => Vec::new(),
    };
    let ghost subs0 = subs@;
    sorted_insert(&mut subs, s);
    fx_insert(m, key, subs);
    proof {
        let set1 = set0.insert((s, p, o));
        let m1 = m@;
        assert(set1.contains((s, p, o)));
        assert forall|q: u32|
            #![trigger m1.contains_key(q as u64)]
            (m1.contains_key(q as u64) <==> predicate_occurs(set1, q)) && (m1.contains_key(
                q as u64,
            ) ==> {
                &&& crate::sorted::increasing(m1[q as u64]@)
                &&& crate::sorted::members(m1[q as u64]@) == subjects_having(set1, q)
            }) by {
            assert(m0.contains_key(q as u64) <==> predicate_occurs(set0, q));
            if q == p {
                assert(predicate_occurs(set1, q));
                let want = subjects_having(set1, q);
                assert forall|x: u32| crate::sorted::members(subs@).contains(x) == want.contains(x) by {
                    assert(crate::sorted::members(subs@).contains(x) == (crate::sorted::members(
                        subs0,
                    ).contains(x) || x == s));
                    assert(crate::sorted::members(subs0).contains(x) == subjects_having(
                        set0,
                        q,
                    ).contains(x)) by {
                        if !m0.contains_key(q as u64) {
                            assert(subs0 =~= Seq::<u32>::empty());
                            if subjects_having(set0, q).contains(x) {
                                let y = choose|y: u32| set0.contains((x, q, y));
                                assert(set0.contains((x, q, y)));
                            }
                        }
                    }
                    if subjects_having(set0, q).contains(x) {
                        let y = choose|y: u32| set0.contains((x, q, y));
                        assert(set1.contains((x, q, y)));
                    }
                    if want.contains(x) && x != s {
                        let y = choose|y: u32| set1.contains((x, q, y));
                        assert(set0.contains((x, q, y)));
                    }
                }
                assert(crate::sorted::members(subs@) =~= want);
            } else {
                assert(m1.contains_key(q as u64) == m0.contains_key(q as u64));
                assert forall|x: u32, y: u32| set1.contains((x, q, y)) == set0.contains(
                    (x, q, y),
                ) by {
                }
                assert(subjects_having(set1, q) =~= subjects_having(set0, q));
                assert(predicate_occurs(set1, q) == predicate_occurs(set0, q));
            }
        }
    }
}

/// The subjects of each predicate.
fn subjects_by_predicate(ts: &[IdTriple]) -> (m: FxHashMap<u64, Vec<u32>>)
    ensures
        pred_ok(m@, triple_set(ts@)),
{
    let mut m: FxHashMap<u64, Vec<u32>> = fx_new();
    let mut i: usize = 0;
    assert(triple_set(ts@.take(0)) =~= Set::<IdTriple>::empty());
    while i < ts.len()
        invariant
            i <= ts@.len(),
            pred_ok(m@, triple_set(ts@.take(i as int))),
        decreases ts@.len() - i,
    {
        let (s, p, o) = ts[i];
        add_subject(&mut m, s, p, Ghost(triple_set(ts@.take(i as int))), o);
        proof {
            let t0 = ts@.take(i as int);
            let t1 = ts@.take(i + 1);
            assert(t1 =~= t0.push((s, p, o)));
            assert forall|x: IdTriple| triple_set(t1).contains(x) == triple_set(t0).insert(
                (s, p, o),
            ).contains(x) by {
                crate::hypertrie::csr::lemma_push3(t0, (s, p, o), x);
            }
            assert(triple_set(t1) =~= triple_set(t0).insert((s, p, o)));
        }
        i += 1;
    }
    assert(ts@.take(i as int) =~= ts@);
    m
}

/// The three orders of one set of triples.
pub struct Permutations {
    pred_subjects: FxHashMap<u64, Vec<u32>>,
    spo: LayeredIndex,
    pos: LayeredIndex,
    osp: LayeredIndex,
}

impl Permutations {
    /// The stored triples.
    pub closed spec fn triples(&self) -> Set<IdTriple> {
        self.spo@
    }

    /// The three orders and the subject lists agree.
    pub closed spec fn wf(&self) -> bool {
        &&& self.spo.wf()
        &&& self.pos.wf()
        &&& self.osp.wf()
        &&& self.pos@ == as_pos(self.spo@)
        &&& self.osp@ == as_osp(self.spo@)
        &&& pred_ok(self.pred_subjects@, self.spo@)
    }

    /// The stored set is finite, and its size fits an identifier.
    pub proof fn lemma_wf(&self)
        requires
            self.wf(),
        ensures
            self.triples().finite(),
            self.triples().len() <= u32::MAX,
    {
        self.spo.lemma_size();
    }

    pub fn new() -> (r: Permutations)
        ensures
            r.wf(),
            r.triples() == Set::<IdTriple>::empty(),
    {
        let r: Permutations = Permutations {
            pred_subjects: fx_new(),
            spo: LayeredIndex::empty(),
            pos: LayeredIndex::empty(),
            osp: LayeredIndex::empty(),
        };
        proof {
            assert(r.pos@ =~= as_pos(r.spo@));
            assert(r.osp@ =~= as_osp(r.spo@));
        }
        r
    }

    /// Adds one triple to all orders; says whether it was new.
    pub fn add_one(&mut self, s: u32, p: u32, o: u32) -> (new: bool)
        requires
            old(self).wf(),
            old(self).triples().len() < u32::MAX,
        ensures
            final(self).wf(),
            new == !old(self).triples().contains((s, p, o)),
            final(self).triples() == old(self).triples().insert((s, p, o)),
    {
        let ghost set0 = self.spo@;
        let ghost m0 = self.pred_subjects@;
        proof {
            self.spo.lemma_size();
            lemma_turned_len(set0);
        }
        let is_new: bool = self.spo.insert(s, p, o);
        if is_new {
            let _a: bool = self.pos.insert(p, o, s);
            let _b: bool = self.osp.insert(o, s, p);
            add_subject(&mut self.pred_subjects, s, p, Ghost(set0), o);
            proof {
                let set1 = self.spo@;
                assert(self.pos@ =~= as_pos(set1));
                assert(self.osp@ =~= as_osp(set1));
            }
        } else {
            assert(set0.insert((s, p, o)) =~= set0);
        }
        is_new
    }

    /// Takes one triple out of all orders; says whether it was there. A subject
    /// leaves the list of its predicate with its last object.
    pub fn remove_one(&mut self, s: u32, p: u32, o: u32) -> (existed: bool)
        requires
            old(self).wf(),
        ensures
            final(self).wf(),
            existed == old(self).triples().contains((s, p, o)),
            final(self).triples() == old(self).triples().remove((s, p, o)),
    {
        let ghost set0 = self.spo@;
        let ghost m0 = self.pred_subjects@;
        let existed: bool = self.spo.delete(s, p, o);
        if existed {
            let _a: bool = self.pos.delete(p, o, s);
            let _b: bool = self.osp.delete(o, s, p);
            let left: Cow<'_, [u32]> = self.spo.query_two(s, p);
            let last: bool = cow_len(&left) == 0;
            proof {
                let set1 = self.spo@;
                assert(last == !subjects_having(set1, p).contains(s)) by {
                    if !last {
                        assert(crate::sorted::members(left@).contains(left@[0]));
                        assert(set1.contains((s, p, left@[0])));
                    }
                    if subjects_having(set1, p).contains(s) {
                        let y = choose|y: u32| set1.contains((s, p, y));
                        assert(crate::sorted::members(left@).contains(y));
                    }
                }
            }
            let key: u64 = p as u64;
            if last {
                match fx_remove(&mut self.pred_subjects, key) {
                    Some(v) => {
                        let mut subs: Vec<u32> = v;
                        let _c: bool = sorted_remove(&mut subs, s);
                        if subs.len() > 0 {
                            fx_insert(&mut self.pred_subjects, key, subs);
                        }
                        proof {
                            assert(crate::sorted::members(subs@) == subjects_having(set0, p).remove(s));
                        }
                    },
                    None => {},
                }
            }
            proof {
                let set1 = self.spo@;
                let m1 = self.pred_subjects@;
                assert(self.pos@ =~= as_pos(set1));
                assert(self.osp@ =~= as_osp(set1));
                assert(set0.contains((s, p, o)));
                assert(predicate_occurs(set0, p));
                assert(m0.contains_key(key));
                assert forall|q: u32|
                    #![trigger m1.contains_key(q as u64)]
                    (m1.contains_key(q as u64) <==> predicate_occurs(set1, q)) && (m1.contains_key(
                        q as u64,
                    ) ==> {
                        &&& crate::sorted::increasing(m1[q as u64]@)
                        &&& crate::sorted::members(m1[q as u64]@) == subjects_having(set1, q)
                    }) by {
                    assert(m0.contains_key(q as u64) <==> predicate_occurs(set0, q));
                    if q == p {
                        let have0 = subjects_having(set0, q);
                        let have1 = subjects_having(set1, q);
                        assert forall|x: u32| have1.contains(x) == (have0.contains(x) && !(last && x
                            == s)) by {
                            if have1.contains(x) {
                                let y = choose|y: u32| set1.contains((x, q, y));
                                assert(set0.contains((x, q, y)));
                            }
                            if have0.contains(x) && x != s {
                                let y = choose|y: u32| set0.contains((x, q, y));
                                assert(set1.contains((x, q, y)));
                            }
                            if x == s {
                                assert(have0.contains(s));
                            }
                        }
                        if last {
                            assert(have1 =~= have0.remove(s));
                        } else {
                            assert(have1 =~= have0);
                        }
                        if predicate_occurs(set1, q) {
                            let (x, y) = choose|x: u32, y: u32| set1.contains((x, q, y));
                            assert(have1.contains(x));
                        }
                        if m1.contains_key(q as u64) {
                            let v = m1[q as u64]@;
                            if last {
                                assert(v.len() > 0);
                                assert(crate::sorted::members(v).contains(v[0]));
                            } else {
                                assert(have1.contains(s));
                            }
                            let x = if last { v[0] } else { s };
                            assert(have1.contains(x));
                            let y = choose|y: u32| set1.contains((x, q, y));
                            assert(set1.contains((x, q, y)));
                        }
                    } else {
                        assert(m1.contains_key(q as u64) == m0.contains_key(q as u64));
                        assert forall|x: u32, y: u32| set1.contains((x, q, y)) == set0.contains(
                            (x, q, y),
                        ) by {
                        }
                        assert(subjects_having(set1, q) =~= subjects_having(set0, q));
                        assert(predicate_occurs(set1, q) == predicate_occurs(set0, q));
                    }
                }
            }
        } else {
            assert(set0.remove((s, p, o)) =~= set0);
        }
        existed
    }
}

impl Permutations {
    /// The three orders of a triple list, duplicates dropped.
    pub fn build(triples: &[IdTriple]) -> (r: Permutations)
        requires
            triples@.len() <= u32::MAX,
        ensures
            r.wf(),
            r.triples() == triple_set(triples@),
    {
        let mut pos_list: Vec<IdTriple> = Vec::new();
        let mut osp_list: Vec<IdTriple> = Vec::new();
        let mut i: usize = 0;
        while i < triples.len()
            invariant
                i <= triples@.len(),
                pos_list@.len() == i,
                osp_list@.len() == i,
                forall|k: int|
                    0 <= k < i ==> #[trigger] pos_list@[k] == (
                        triples@[k].1,
                        triples@[k].2,
                        triples@[k].0,
                    ),
                forall|k: int|
                    0 <= k < i ==> #[trigger] osp_list@[k] == (
                        triples@[k].2,
                        triples@[k].0,
                        triples@[k].1,
                    ),
            decreases triples@.len() - i,
        {
            let (s, p, o) = triples[i];
            pos_list.push((p, o, s));
            osp_list.push((o, s, p));
            i += 1;
        }
        proof {
            let set = triple_set(triples@);
            assert forall|t: IdTriple| triple_set(pos_list@).contains(t) == as_pos(set).contains(t) by {
                if pos_list@.contains(t) {
                    let k = choose|k: int| 0 <= k < pos_list@.len() && pos_list@[k] == t;
                    assert(triples@[k] == (t.2, t.0, t.1));
                }
                if as_pos(set).contains(t) {
                    let k = choose|k: int| 0 <= k < triples@.len() && triples@[k] == (t.2, t.0, t.1);
                    assert(pos_list@[k] == t);
                }
            }
            assert forall|t: IdTriple| triple_set(osp_list@).contains(t) == as_osp(set).contains(t) by {
                if osp_list@.contains(t) {
                    let k = choose|k: int| 0 <= k < osp_list@.len() && osp_list@[k] == t;
                    assert(triples@[k] == (t.1, t.2, t.0));
                }
                if as_osp(set).contains(t) {
                    let k = choose|k: int| 0 <= k < triples@.len() && triples@[k] == (t.1, t.2, t.0);
                    assert(osp_list@[k] == t);
                }
            }
            assert(triple_set(pos_list@) =~= as_pos(set));
            assert(triple_set(osp_list@) =~= as_osp(set));
        }
        let spo: LayeredIndex = LayeredIndex::build(triples);
        let pos: LayeredIndex = LayeredIndex::build(pos_list.as_slice());
        let osp: LayeredIndex = LayeredIndex::build(osp_list.as_slice());
        let list: Vec<IdTriple> = spo.all_triples();
        let pred_subjects: FxHashMap<u64, Vec<u32>> = subjects_by_predicate(list.as_slice());
        Permutations { pred_subjects, spo, pos, osp }
    }

    /// The three orders from three bases, if these hold the same triples.
    pub fn from_bases(spo: FlatCsr, pos: FlatCsr, osp: FlatCsr) -> (r: Option<Permutations>)
        requires
            spo.wf(),
            pos.wf(),
            osp.wf(),
            spo.flat().len() <= u32::MAX,
            pos.flat().len() <= u32::MAX,
            osp.flat().len() <= u32::MAX,
        ensures
            match r {
                Some(x) => x.wf() && x.folded() && x.triples() == spo@ && pos@ == as_pos(spo@) && osp@ == as_osp(
                    spo@,
                ),
                None => !(pos@ == as_pos(spo@) && osp@ == as_osp(spo@)),
            },
    {
        let a: LayeredIndex = LayeredIndex::from_base(spo);
        let b: LayeredIndex = LayeredIndex::from_base(pos);
        let c: LayeredIndex = LayeredIndex::from_base(osp);
        proof {
            a.lemma_size();
            b.lemma_size();
            c.lemma_size();
            lemma_turned_len(a@);
        }
        if b.len() != a.len() || c.len() != a.len() {
            return None;
        }
        let bs: Vec<IdTriple> = b.all_triples();
        let mut i: usize = 0;
        while i < bs.len()
            invariant
                i <= bs@.len(),
                a.wf(),
                a@ == spo@,
                triple_set(bs@) == pos@,
                forall|k: int| 0 <= k < i ==> as_pos(a@).contains(#[trigger] bs@[k]),
            decreases bs@.len() - i,
        {
            let (p, o, s) = bs[i];
            if !a.contains(s, p, o) {
                assert(triple_set(bs@).contains(bs@[i as int]));
                return None;
            }
            i += 1;
        }
        let cs: Vec<IdTriple> = c.all_triples();
        let mut j: usize = 0;
        while j < cs.len()
            invariant
                j <= cs@.len(),
                a.wf(),
                a@ == spo@,
                triple_set(cs@) == osp@,
                forall|k: int| 0 <= k < j ==> as_osp(a@).contains(#[trigger] cs@[k]),
            decreases cs@.len() - j,
        {
            let (o, s, p) = cs[j];
            if !a.contains(s, p, o) {
                assert(triple_set(cs@).contains(cs@[j as int]));
                return None;
            }
            j += 1;
        }
        proof {
            assert(b@.subset_of(as_pos(a@))) by {
                assert forall|t: IdTriple| b@.contains(t) implies as_pos(a@).contains(t) by {
                    let k = choose|k: int| 0 <= k < bs@.len() && bs@[k] == t;
                    assert(as_pos(a@).contains(bs@[k]));
                }
            }
            assert(c@.subset_of(as_osp(a@))) by {
                assert forall|t: IdTriple| c@.contains(t) implies as_osp(a@).contains(t) by {
                    let k = choose|k: int| 0 <= k < cs@.len() && cs@[k] == t;
                    assert(as_osp(a@).contains(cs@[k]));
                }
            }
            vstd::set_lib::lemma_subset_equality(b@, as_pos(a@));
            vstd::set_lib::lemma_subset_equality(c@, as_osp(a@));
        }
        let list: Vec<IdTriple> = a.all_triples();
        let pred_subjects: FxHashMap<u64, Vec<u32>> = subjects_by_predicate(list.as_slice());
        Some(Permutations { pred_subjects, spo: a, pos: b, osp: c })
    }

    /// The flat bases, once the deltas have been folded in.
    pub fn bases(&self) -> (r: (&FlatCsr, &FlatCsr, &FlatCsr))
        requires
            self.wf(),
            self.folded(),
        ensures
            r.0.wf() && r.1.wf() && r.2.wf(),
            r.0.flat().len() <= u32::MAX,
            r.1.flat().len() <= u32::MAX,
            r.2.flat().len() <= u32::MAX,
            r.0@ == self.triples(),
            r.1@ == as_pos(self.triples()),
            r.2@ == as_osp(self.triples()),
    {
        proof {
            assert(self.spo@ =~= self.spo.base_set());
            assert(self.pos@ =~= self.pos.base_set());
            assert(self.osp@ =~= self.osp.base_set());
        }
        (self.spo.base(), self.pos.base(), self.osp.base())
    }

    /// Whether the bases alone hold the triples.
    pub closed spec fn folded(&self) -> bool {
        &&& self.spo.inserted() == Set::<IdTriple>::empty() && self.spo.deleted() == Set::<
            IdTriple,
        >::empty()
        &&& self.pos.inserted() == Set::<IdTriple>::empty() && self.pos.deleted() == Set::<
            IdTriple,
        >::empty()
        &&& self.osp.inserted() == Set::<IdTriple>::empty() && self.osp.deleted() == Set::<
            IdTriple,
        >::empty()
    }

    /// Folds the deltas of all three orders into their bases.
    pub fn compact_all(&mut self)
        requires
            old(self).wf(),
        ensures
            final(self).wf(),
            final(self).folded(),
            final(self).triples() == old(self).triples(),
    {
        self.spo.compact();
        self.pos.compact();
        self.osp.compact();
    }

    /// The objects of `(s, p)`, in order.
    pub fn objects_of(&self, s: u32, p: u32) -> (r: Cow<'_, [u32]>)
        requires
            self.wf(),
        ensures
            r@ == crate::sorted::in_order(objects(self.triples(), s, p)),
            crate::sorted::increasing(r@),
            crate::sorted::members(r@) == objects(self.triples(), s, p),
    {
        let r: Cow<'_, [u32]> = self.spo.query_two(s, p);
        proof {
            assert(crate::sorted::members(r@) =~= objects(self.triples(), s, p));
            crate::sorted::lemma_in_order(r@);
        }
        r
    }

    /// The subjects of `(p, o)`, in order.
    pub fn subjects_of(&self, p: u32, o: u32) -> (r: Cow<'_, [u32]>)
        requires
            self.wf(),
        ensures
            r@ == crate::sorted::in_order(subjects(self.triples(), p, o)),
            crate::sorted::increasing(r@),
            crate::sorted::members(r@) == subjects(self.triples(), p, o),
    {
        let r: Cow<'_, [u32]> = self.pos.query_two(p, o);
        proof {
            assert(crate::sorted::members(r@) =~= subjects(self.triples(), p, o));
            crate::sorted::lemma_in_order(r@);
        }
        r
    }

    /// The predicates between `s` and `o`, in order.
    fn predicates_of(&self, s: u32, o: u32) -> (r: Cow<'_, [u32]>)
        requires
            self.wf(),
        ensures
            r@ == crate::sorted::in_order(predicates(self.triples(), s, o)),
    {
        let r: Cow<'_, [u32]> = self.osp.query_two(o, s);
        proof {
            assert(crate::sorted::members(r@) =~= predicates(self.triples(), s, o));
            crate::sorted::lemma_in_order(r@);
        }
        r
    }

    /// The subjects that have predicate `p`, in order.
    pub fn subjects_with_predicate(&self, p: u32) -> (r: &[u32])
        requires
            self.wf(),
        ensures
            r@ == crate::sorted::in_order(subjects_having(self.triples(), p)),
            crate::sorted::increasing(r@),
            crate::sorted::members(r@) == subjects_having(self.triples(), p),
    {
        proof {
            assert(self.pred_subjects@.contains_key(p as u64) <==> predicate_occurs(self.spo@, p));
        }
        match fx_get(&self.pred_subjects, p as u64) {
            Some(v) => {
                proof {
                    crate::sorted::lemma_in_order(v@);
                }
                v.as_slice()
            },
            None => {
                let none: &[u32] = &[];
                proof {
                    assert(none@ =~= Seq::<u32>::empty());
                    assert forall|s: u32| !subjects_having(self.triples(), p).contains(s) by {
                        if subjects_having(self.triples(), p).contains(s) {
                            let o = choose|o: u32| self.triples().contains((s, p, o));
                            assert(self.triples().contains((s, p, o)));
                        }
                    }
                    assert(crate::sorted::members(none@) =~= subjects_having(self.triples(), p));
                    crate::sorted::lemma_in_order(none@);
                }
                none
            },
        }
    }

    /// The objects that predicate `p` leads to, in order.
    pub fn objects_with_predicate(&self, p: u32) -> (r: Cow<'_, [u32]>)
        requires
            self.wf(),
        ensures
            r@ == crate::sorted::in_order(objects_having(self.triples(), p)),
            crate::sorted::increasing(r@),
            crate::sorted::members(r@) == objects_having(self.triples(), p),
    {
        let r: Cow<'_, [u32]> = self.pos.seconds_of(p);
        proof {
            let set = self.triples();
            assert forall|o: u32| crate::sorted::members(r@).contains(o) == objects_having(
                set,
                p,
            ).contains(o) by {
                if crate::sorted::members(r@).contains(o) {
                    let s = choose|s: u32| self.pos@.contains((p, o, s));
                    assert(set.contains((s, p, o)));
                }
                if objects_having(set, p).contains(o) {
                    let s = choose|s: u32| set.contains((s, p, o));
                    assert(self.pos@.contains((p, o, s)));
                }
            }
            assert(crate::sorted::members(r@) =~= objects_having(set, p));
            crate::sorted::lemma_in_order(r@);
        }
        r
    }

    /// Whether predicate `p` occurs.
    pub fn has_predicate(&self, p: u32) -> (r: bool)
        requires
            self.wf(),
        ensures
            r == predicate_occurs(self.triples(), p),
    {
        proof {
            assert(self.pred_subjects@.contains_key(p as u64) <==> predicate_occurs(self.spo@, p));
        }
        fx_get(&self.pred_subjects, p as u64).is_some()
    }

    /// The `(p, o)` pairs of subject `s`, in order.
    pub fn po_pairs_of(&self, s: u32) -> (r: Vec<(u32, u32)>)
        requires
            self.wf(),
        ensures
            r@ == crate::hypertrie::csr::pairs_in_order(po_pairs(self.triples(), s)),
            crate::hypertrie::csr::pair_set(r@) == po_pairs(self.triples(), s),
    {
        let r: Vec<(u32, u32)> = self.spo.query_one_pairs(s);
        proof {
            assert(crate::hypertrie::csr::pair_set(r@) =~= po_pairs(self.triples(), s));
            crate::hypertrie::csr::lemma_pairs_in_order(r@);
        }
        r
    }

    /// The `(o, s)` pairs of predicate `p`, in order.
    fn os_pairs_of(&self, p: u32) -> (r: Vec<(u32, u32)>)
        requires
            self.wf(),
        ensures
            r@ == crate::hypertrie::csr::pairs_in_order(os_pairs(self.triples(), p)),
    {
        let r: Vec<(u32, u32)> = self.pos.query_one_pairs(p);
        proof {
            assert(crate::hypertrie::csr::pair_set(r@) =~= os_pairs(self.triples(), p));
            crate::hypertrie::csr::lemma_pairs_in_order(r@);
        }
        r
    }

    /// The `(s, p)` pairs of object `o`, in order.
    pub fn sp_pairs_of(&self, o: u32) -> (r: Vec<(u32, u32)>)
        requires
            self.wf(),
        ensures
            r@ == crate::hypertrie::csr::pairs_in_order(sp_pairs(self.triples(), o)),
            crate::hypertrie::csr::pair_set(r@) == sp_pairs(self.triples(), o),
    {
        let r: Vec<(u32, u32)> = self.osp.query_one_pairs(o);
        proof {
            assert(crate::hypertrie::csr::pair_set(r@) =~= sp_pairs(self.triples(), o));
            crate::hypertrie::csr::lemma_pairs_in_order(r@);
        }
        r
    }

    /// The subjects that are listed: those of stored triples, and those whose
    /// last triple was deleted since the base was built.
    pub closed spec fn subject_keys(&self) -> Set<u32> {
        crate::hypertrie::index::first_values(self.spo.base_set().union(self.spo.inserted()))
    }

    /// The objects that are listed, in the same sense.
    pub closed spec fn object_keys(&self) -> Set<u32> {
        crate::hypertrie::index::first_values(self.osp.base_set().union(self.osp.inserted()))
    }

    /// Every subject and object of a stored triple is listed, and nothing else
    /// once the deltas have been folded in.
    pub proof fn law_listed_keys(&self)
        requires
            self.wf(),
        ensures
            forall|s: u32, p: u32, o: u32| #[trigger]
                self.triples().contains((s, p, o)) ==> self.subject_keys().contains(s)
                    && self.object_keys().contains(o),
            self.folded() ==> forall|s: u32|
                self.subject_keys().contains(s) ==> exists|p: u32, o: u32|
                    self.triples().contains((s, p, o)),
            self.folded() ==> forall|o: u32|
                self.object_keys().contains(o) ==> exists|s: u32, p: u32|
                    self.triples().contains((s, p, o)),
    {
        let a = self.spo.base_set().union(self.spo.inserted());
        let b = self.osp.base_set().union(self.osp.inserted());
        assert forall|s: u32, p: u32, o: u32| #[trigger]
            self.triples().contains((s, p, o)) implies self.subject_keys().contains(s)
            && self.object_keys().contains(o) by {
            assert(a.contains((s, p, o)));
            assert(self.osp@.contains((o, s, p)));
            assert(b.contains((o, s, p)));
        }
        if self.folded() {
            assert(a =~= self.spo@);
            assert(b =~= self.osp@);
            assert forall|s: u32| self.subject_keys().contains(s) implies exists|p: u32, o: u32|
                self.triples().contains((s, p, o)) by {
                let (p, o) = choose|p: u32, o: u32| a.contains((s, p, o));
                assert(self.triples().contains((s, p, o)));
            }
            assert forall|o: u32| self.object_keys().contains(o) implies exists|s: u32, p: u32|
                self.triples().contains((s, p, o)) by {
                let (s, p) = choose|s: u32, p: u32| b.contains((o, s, p));
                assert(self.triples().contains((s, p, o)));
            }
        }
    }

    /// The listed subjects, in order.
    pub fn distinct_subjects(&self) -> (r: Vec<u32>)
        requires
            self.wf(),
        ensures
            r@ == crate::sorted::in_order(self.subject_keys()),
            crate::sorted::increasing(r@),
            crate::sorted::members(r@) == self.subject_keys(),
    {
        let r: Vec<u32> = self.spo.first_keys();
        proof {
            crate::sorted::lemma_in_order(r@);
        }
        r
    }

    /// The listed objects, in order.
    pub fn distinct_objects(&self) -> (r: Vec<u32>)
        requires
            self.wf(),
        ensures
            r@ == crate::sorted::in_order(self.object_keys()),
            crate::sorted::increasing(r@),
            crate::sorted::members(r@) == self.object_keys(),
    {
        let r: Vec<u32> = self.osp.first_keys();
        proof {
            crate::sorted::lemma_in_order(r@);
        }
        r
    }

    /// All triples, in order.
    pub fn all_triples(&self) -> (r: Vec<IdTriple>)
        requires
            self.wf(),
        ensures
            r@ == crate::hypertrie::csr::triples_in_order(self.triples()),
            crate::hypertrie::csr::increasing3(r@),
            triple_set(r@) == self.triples(),
    {
        let r: Vec<IdTriple> = self.spo.all_triples();
        proof {
            crate::hypertrie::csr::lemma_triples_in_order(r@);
        }
        r
    }

    /// Answers a query from the order that has its known positions in front.
    pub fn query(&self, s: Term, p: Term, o: Term) -> (r: QueryResult<'_>)
        requires
            self.wf(),
        ensures
            r@ == answer(self.triples(), s, p, o),
    {
        match (s, p, o) {
            (Term::Bound(sv), Term::Bound(pv), Term::Bound(ov)) => QueryResult::Exact(
                self.spo.contains(sv, pv, ov),
            ),
            (Term::Bound(sv), Term::Bound(pv), Term::Wildcard) => QueryResult::Single(
                Var::O,
                self.objects_of(sv, pv),
            ),
            (Term::Wildcard, Term::Bound(pv), Term::Bound(ov)) => QueryResult::Single(
                Var::S,
                self.subjects_of(pv, ov),
            ),
            (Term::Bound(sv), Term::Wildcard, Term::Bound(ov)) => QueryResult::Single(
                Var::P,
                self.predicates_of(sv, ov),
            ),
            (Term::Bound(sv), Term::Wildcard, Term::Wildcard) => QueryResult::Double(
                Var::P,
                Var::O,
                self.po_pairs_of(sv),
            ),
            (Term::Wildcard, Term::Bound(pv), Term::Wildcard) => QueryResult::Double(
                Var::O,
                Var::S,
                self.os_pairs_of(pv),
            ),
            (Term::Wildcard, Term::Wildcard, Term::Bound(ov)) => QueryResult::Double(
                Var::S,
                Var::P,
                self.sp_pairs_of(ov),
            ),
            (Term::Wildcard, Term::Wildcard, Term::Wildcard) => QueryResult::All(self.all_triples()),
        }
    }

    pub fn len(&self) -> (n: usize)
        requires
            self.wf(),
        ensures
            n == self.triples().len(),
            n <= u32::MAX,
    {
        proof {
            self.spo.lemma_size();
        }
        self.spo.len()
    }
}

// --- Estimates ---------------------------------------------------------------

impl Permutations {
    /// The estimated number of triples under a first value of the subject order,
    /// and of the other two. Deletions since the base was built are not counted.
    pub closed spec fn degrees(&self) -> (spec_fn(u32) -> usize, spec_fn(u32) -> usize, spec_fn(u32) -> usize) {
        (
            |s: u32| order_degree(self.spo, s),
            |p: u32| order_degree(self.pos, p),
            |o: u32| order_degree(self.osp, o),
        )
    }

    /// Once the deltas have been folded in, the estimates are exact.
    pub proof fn law_degrees(&self)
        requires
            self.wf(),
            self.folded(),
        ensures
            forall|s: u32| #[trigger]
                (self.degrees().0)(s) == self.triples().filter(|t: IdTriple| t.0 == s).len(),
            forall|p: u32| #[trigger]
                (self.degrees().1)(p) == as_pos(self.triples()).filter(|t: IdTriple| t.0 == p).len(),
            forall|o: u32| #[trigger]
                (self.degrees().2)(o) == as_osp(self.triples()).filter(|t: IdTriple| t.0 == o).len(),
    {
        self.spo.lemma_size();
        self.pos.lemma_size();
        self.osp.lemma_size();
        lemma_order_degree(self.spo);
        lemma_order_degree(self.pos);
        lemma_order_degree(self.osp);
    }

    /// The same for one identifier at each of the positions.
    pub proof fn law_degrees_of(&self, id: u32)
        requires
            self.wf(),
            self.folded(),
        ensures
            (self.degrees().0)(id) == crate::hypertrie::index::under(self.triples(), id).len(),
            (self.degrees().1)(id) == crate::hypertrie::index::under(as_pos(self.triples()), id).len(),
            (self.degrees().2)(id) == crate::hypertrie::index::under(as_osp(self.triples()), id).len(),
    {
        self.spo.lemma_size();
        self.pos.lemma_size();
        self.osp.lemma_size();
        lemma_degree_of(self.spo, id);
        lemma_degree_of(self.pos, id);
        lemma_degree_of(self.osp, id);
    }

    pub fn subject_degree(&self, s: u32) -> (n: usize)
        requires
            self.wf(),
        ensures
            n == (self.degrees().0)(s),
    {
        self.spo.count_one(s)
    }

    pub fn predicate_degree(&self, p: u32) -> (n: usize)
        requires
            self.wf(),
        ensures
            n == (self.degrees().1)(p),
    {
        self.pos.count_one(p)
    }

    pub fn object_degree(&self, o: u32) -> (n: usize)
        requires
            self.wf(),
        ensures
            n == (self.degrees().2)(o),
    {
        self.osp.count_one(o)
    }

    pub fn count_objects(&self, s: u32, p: u32) -> (n: usize)
        requires
            self.wf(),
        ensures
            n == objects(self.triples(), s, p).len(),
    {
        proof {
            assert(crate::hypertrie::index::third_values(self.spo@, s, p) =~= objects(self.triples(), s, p));
        }
        self.spo.count_two(s, p)
    }

    pub fn count_subjects(&self, p: u32, o: u32) -> (n: usize)
        requires
            self.wf(),
        ensures
            n == subjects(self.triples(), p, o).len(),
    {
        proof {
            assert(crate::hypertrie::index::third_values(self.pos@, p, o) =~= subjects(self.triples(), p, o));
        }
        self.pos.count_two(p, o)
    }

    pub fn count_predicates(&self, s: u32, o: u32) -> (n: usize)
        requires
            self.wf(),
        ensures
            n == predicates(self.triples(), s, o).len(),
    {
        proof {
            assert(crate::hypertrie::index::third_values(self.osp@, o, s) =~= predicates(self.triples(), s, o));
        }
        self.osp.count_two(o, s)
    }
}

spec fn order_degree(index: LayeredIndex, first: u32) -> usize {
    crate::hypertrie::index::clamped(
        crate::hypertrie::index::under(index.base_set(), first).len()
            + crate::hypertrie::index::under(index.inserted(), first).len(),
    )
}

proof fn lemma_order_degree(index: LayeredIndex)
    requires
        index.wf(),
        index.inserted() == Set::<IdTriple>::empty(),
        index.deleted() == Set::<IdTriple>::empty(),
    ensures
        forall|f: u32| #[trigger]
            order_degree(index, f) == index@.filter(|t: IdTriple| t.0 == f).len(),
{
    index.lemma_size();
    assert(index@ =~= index.base_set());
    assert forall|f: u32| #[trigger] order_degree(index, f) == index@.filter(
        |t: IdTriple| t.0 == f,
    ).len() by {
        let all = index@.filter(|t: IdTriple| t.0 == f);
        assert(crate::hypertrie::index::under(index.base_set(), f) =~= all);
        assert(crate::hypertrie::index::under(index.inserted(), f) =~= Set::<IdTriple>::empty());
        vstd::set_lib::lemma_len_subset(all, index@);
    }
}

proof fn lemma_degree_of(index: LayeredIndex, first: u32)
    requires
        index.wf(),
        index.inserted() == Set::<IdTriple>::empty(),
        index.deleted() == Set::<IdTriple>::empty(),
    ensures
        order_degree(index, first) == crate::hypertrie::index::under(index@, first).len(),
{
    index.lemma_size();
    assert(index@ =~= index.base_set());
    assert(crate::hypertrie::index::under(index.inserted(), first) =~= Set::<IdTriple>::empty());
    vstd::set_lib::lemma_len_subset(crate::hypertrie::index::under(index@, first), index@);
}

// --- Sizes --------------------------------------------------------------------------

/// The predicates of triples, each with each of its subjects.
pub open spec fn predicate_subjects(set: Set<IdTriple>) -> Set<(u32, u32)> {
    Set::new(|q: (u32, u32)| subjects_having(set, q.0).contains(q.1))
}

/// Those of some predicates.
spec fn subjects_among(set: Set<IdTriple>, ps: Seq<u32>) -> Set<(u32, u32)> {
    predicate_subjects(set).filter(|q: (u32, u32)| ps.contains(q.0))
}

proof fn lemma_subjects_among(set: Set<IdTriple>, ps: Seq<u32>, p: u32, list: Seq<u32>)
    requires
        !ps.contains(p),
        crate::sorted::increasing(list),
        crate::sorted::members(list) == subjects_having(set, p),
        subjects_among(set, ps).finite(),
    ensures
        subjects_among(set, ps.push(p)).finite(),
        subjects_among(set, ps.push(p)).len() == subjects_among(set, ps).len() + list.len(),
{
    let a = subjects_among(set, ps);
    let pairs = list.map_values(|s: u32| (p, s));
    assert forall|i: int, j: int| 0 <= i < j < pairs.len() implies pairs[i] != pairs[j] by {
        assert(list[i] < list[j]);
    }
    pairs.unique_seq_to_set();
    let b = pairs.to_set();
    let c = subjects_among(set, ps.push(p));
    assert forall|q: (u32, u32)| c.contains(q) == a.union(b).contains(q) by {
        assert(ps.push(p)[ps.len() as int] == p);
        if ps.contains(q.0) {
            let k = choose|k: int| 0 <= k < ps.len() && ps[k] == q.0;
            assert(ps.push(p)[k] == q.0);
        }
        if ps.push(p).contains(q.0) && q.0 != p {
            let k = choose|k: int| 0 <= k < ps.push(p).len() && ps.push(p)[k] == q.0;
            assert(ps[k] == q.0);
        }
        if q.0 == p && subjects_having(set, p).contains(q.1) {
            assert(crate::sorted::members(list).contains(q.1));
            let k = choose|k: int| 0 <= k < list.len() && list[k] == q.1;
            assert(pairs[k] == q);
        }
        if b.contains(q) {
            let k = choose|k: int| 0 <= k < pairs.len() && pairs[k] == q;
            assert(list[k] == q.1);
            assert(crate::sorted::members(list).contains(q.1));
        }
    }
    assert(c =~= a.union(b));
    assert(a.disjoint(b));
    vstd::set_lib::lemma_set_disjoint_lens(a, b);
}

impl Permutations {
    /// The logical size of the three orders in bytes.
    pub closed spec fn heap_size(&self) -> nat {
        self.spo.heap_size() + self.pos.heap_size() + self.osp.heap_size()
    }

    /// The logical size of the three orders in bytes.
    pub fn heap_bytes(&self) -> (n: usize)
        requires
            self.wf(),
        ensures
            n == clamped(self.heap_size()),
    {
        self.spo.heap_bytes().saturating_add(self.pos.heap_bytes()).saturating_add(
            self.osp.heap_bytes(),
        )
    }

    /// The logical size of the subject lists in bytes: four for each entry.
    pub fn subject_bytes(&self) -> (n: usize)
        requires
            self.wf(),
        ensures
            n == clamped(4 * predicate_subjects(self.triples()).len()),
    {
        let ps: Vec<u32> = self.pos.first_keys();
        let ghost set = self.triples();
        let mut n: usize = 0;
        let mut i: usize = 0;
        assert(subjects_among(set, ps@.take(0)) =~= Set::empty());
        while i < ps.len()
            invariant
                self.wf(),
                set == self.triples(),
                i <= ps@.len(),
                crate::sorted::increasing(ps@),
                subjects_among(set, ps@.take(i as int)).finite(),
                n == clamped(subjects_among(set, ps@.take(i as int)).len()),
            decreases ps@.len() - i,
        {
            let subjects: &[u32] = self.subjects_with_predicate(ps[i]);
            proof {
                assert(ps@.take(i + 1) =~= ps@.take(i as int).push(ps@[i as int]));
                assert(!ps@.take(i as int).contains(ps@[i as int]));
                lemma_subjects_among(set, ps@.take(i as int), ps@[i as int], subjects@);
            }
            n = n.saturating_add(subjects.len());
            i += 1;
        }
        proof {
            assert(ps@.take(i as int) =~= ps@);
            assert forall|q: (u32, u32)| predicate_subjects(set).contains(q) implies ps@.contains(q.0) by {
                let o = choose|o: u32| set.contains((q.1, q.0, o));
                assert(self.pos@.contains((q.0, o, q.1)));
                assert(self.pos.base_set().union(self.pos.inserted()).contains((q.0, o, q.1)));
                assert(crate::sorted::members(ps@).contains(q.0));
            }
            assert(subjects_among(set, ps@) =~= predicate_subjects(set));
        }
        times(n, 4)
    }
}

} // verus!
