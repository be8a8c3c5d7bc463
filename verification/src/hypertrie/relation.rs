//! The pairs of subjects and objects that one predicate relates, found from
//! either side.

use crate::hypertrie::csr::IdTriple;
use crate::sorted::{find, increasing, members, sorted_insert, sorted_remove};
use std::collections::BTreeMap;
use vstd::prelude::*;

verus! {

broadcast use vstd::std_specs::btree::group_btree_axioms;

/// Every entry is an increasing list that is not empty.
spec fn leaves_ok(m: Map<u32, Vec<u32>>) -> bool {
    forall|k: u32| #[trigger] m.contains_key(k) ==> increasing(m[k]@) && m[k]@.len() > 0
}

spec fn leaf_holds(m: Map<u32, Vec<u32>>, k: u32, v: u32) -> bool {
    m.contains_key(k) && m[k]@.contains(v)
}

/// Adds a value under a key; says whether it is new.
fn add_to_leaf(map: &mut BTreeMap<u32, Vec<u32>>, k: u32, v: u32) -> (new: bool)
    requires
        leaves_ok(old(map)@),
    ensures
        leaves_ok(final(map)@),
        new == !leaf_holds(old(map)@, k, v),
        forall|a: u32, b: u32| #[trigger]
            leaf_holds(final(map)@, a, b) == (leaf_holds(old(map)@, a, b) || (a == k && b == v)),
        forall|a: u32| #[trigger]
            final(map)@.contains_key(a) == (old(map)@.contains_key(a) || a == k),
{
    let mut leaf: Vec<u32> = match map.remove(&k) {
        Some(l) => l,
        None => Vec::new(),
    };
    let ghost before = leaf@;
    let new: bool = match find(leaf.as_slice(), v) {
        Ok(i) => {
            assert(before[i as int] == v);
            false
        },
        Err(_) => true,
    };
    sorted_insert(&mut leaf, v);
    proof {
        assert(members(leaf@).contains(v));
        assert(leaf@.contains(v));
        assert forall|b: u32| leaf@.contains(b) == (before.contains(b) || b == v) by {
            assert(members(leaf@).contains(b) == members(before).insert(v).contains(b));
        }
    }
    let ghost added = leaf@;
    map.insert(k, leaf);
    proof {
        assert(map@[k]@ == added);
        assert forall|a: u32, b: u32| #[trigger]
            leaf_holds(map@, a, b) == (leaf_holds(old(map)@, a, b) || (a == k && b == v)) by {
            assert(added.contains(b) == (before.contains(b) || b == v));
        }
    }
    new
}

/// Takes a value from under a key; says whether it was there. A key without
/// values goes too.
fn take_from_leaf(map: &mut BTreeMap<u32, Vec<u32>>, k: u32, v: u32) -> (found: bool)
    requires
        leaves_ok(old(map)@),
    ensures
        leaves_ok(final(map)@),
        found == leaf_holds(old(map)@, k, v),
        forall|a: u32, b: u32| #[trigger]
            leaf_holds(final(map)@, a, b) == (leaf_holds(old(map)@, a, b) && !(a == k && b == v)),
        forall|a: u32|
            a != k ==> #[trigger] final(map)@.contains_key(a) == old(map)@.contains_key(a),
        final(map)@.contains_key(k) ==> old(map)@.contains_key(k),
{
    match map.remove(&k) {
        None => {
            assert(map@ =~= old(map)@);
            false
        },
        Some(held) => {
            let mut leaf: Vec<u32> = held;
            let ghost before = leaf@;
            let found: bool = sorted_remove(&mut leaf, v);
            proof {
                assert forall|b: u32| leaf@.contains(b) == (before.contains(b) && b != v) by {
                    assert(members(leaf@).contains(b) == members(before).remove(v).contains(b));
                }
            }
            if leaf.len() > 0 {
                map.insert(k, leaf);
            }
            found
        },
    }
}

/// Pairs by their first and by their second part.
#[derive(Debug, Clone)]
pub struct Pairs {
    forward: BTreeMap<u32, Vec<u32>>,
    reverse: BTreeMap<u32, Vec<u32>>,
    all_subjects: Vec<u32>,
    all_objects: Vec<u32>,
}

/// The relation of a predicate between subjects and objects.
#[derive(Debug, Clone)]
pub struct PredicateRelation {
    pub pid: u32,
    pub pairs: Pairs,
}

impl View for PredicateRelation {
    type V = Set<(u32, u32)>;

    closed spec fn view(&self) -> Set<(u32, u32)> {
        Set::new(|p: (u32, u32)| leaf_holds(self.pairs.forward@, p.0, p.1))
    }
}

/// The objects that a relation has for a subject.
pub open spec fn objects_of(r: Set<(u32, u32)>, subject: u32) -> Set<u32> {
    Set::new(|o: u32| r.contains((subject, o)))
}

/// The subjects that a relation has for an object.
pub open spec fn subjects_of(r: Set<(u32, u32)>, object: u32) -> Set<u32> {
    Set::new(|s: u32| r.contains((s, object)))
}

pub open spec fn subjects(r: Set<(u32, u32)>) -> Set<u32> {
    Set::new(|s: u32| exists|o: u32| r.contains((s, o)))
}

pub open spec fn objects(r: Set<(u32, u32)>) -> Set<u32> {
    Set::new(|o: u32| exists|s: u32| r.contains((s, o)))
}

/// The pairs of the triples with a predicate.
pub open spec fn pairs_under(pid: u32, triples: Seq<IdTriple>) -> Set<(u32, u32)> {
    Set::new(|p: (u32, u32)| triples.contains((p.0, pid, p.1)))
}

impl Default for PredicateRelation {
    fn default() -> (r: PredicateRelation)
        ensures
            r.wf(),
            r.pid == 0,
            r@ == Set::<(u32, u32)>::empty(),
    {
        PredicateRelation::empty(0)
    }
}

impl PredicateRelation {
    pub closed spec fn wf(&self) -> bool {
        &&& leaves_ok(self.pairs.forward@)
        &&& leaves_ok(self.pairs.reverse@)
        &&& forall|s: u32, o: u32|
            #![trigger leaf_holds(self.pairs.forward@, s, o)]
            #![trigger leaf_holds(self.pairs.reverse@, o, s)]
            leaf_holds(self.pairs.forward@, s, o) == leaf_holds(self.pairs.reverse@, o, s)
        &&& increasing(self.pairs.all_subjects@)
        &&& increasing(self.pairs.all_objects@)
        &&& forall|s: u32| #[trigger]
            members(self.pairs.all_subjects@).contains(s) == self.pairs.forward@.contains_key(s)
        &&& forall|o: u32| #[trigger]
            members(self.pairs.all_objects@).contains(o) == self.pairs.reverse@.contains_key(o)
    }

    /// A relation without pairs.
    pub fn empty(pid: u32) -> (r: PredicateRelation)
        ensures
            r.wf(),
            r.pid == pid,
            r@ == Set::<(u32, u32)>::empty(),
    {
        let pairs = Pairs {
            forward: BTreeMap::new(),
            reverse: BTreeMap::new(),
            all_subjects: Vec::new(),
            all_objects: Vec::new(),
        };
        let r = PredicateRelation { pid, pairs };
        assert(r@ =~= Set::<(u32, u32)>::empty());
        r
    }

    /// The relation of a predicate among triples.
    pub fn build(pid: u32, triples: &[IdTriple]) -> (r: PredicateRelation)
        ensures
            r.wf(),
            r.pid == pid,
            r@ == pairs_under(pid, triples@),
    {
        let mut r = PredicateRelation::empty(pid);
        let mut i: usize = 0;
        assert(pairs_under(pid, triples@.take(0)) =~= Set::empty());
        while i < triples.len()
            invariant
                i <= triples@.len(),
                r.wf(),
                r.pid == pid,
                r@ == pairs_under(pid, triples@.take(i as int)),
            decreases triples@.len() - i,
        {
            let t: IdTriple = triples[i];
            let ghost before = r@;
            if t.1 == pid {
                r.insert(t.0, t.2);
            }
            proof {
                let old_part = triples@.take(i as int);
                let part = triples@.take(i + 1);
                assert(part =~= old_part.push(t));
                assert forall|p: (u32, u32)|
                    pairs_under(pid, part).contains(p) == r@.contains(p) by {
                    let x = (p.0, pid, p.1);
                    if part.contains(x) {
                        let k = choose|k: int| 0 <= k < part.len() && part[k] == x;
                        if k < i {
                            assert(old_part[k] == x);
                        }
                    }
                    if old_part.contains(x) {
                        let k = choose|k: int| 0 <= k < old_part.len() && old_part[k] == x;
                        assert(part[k] == x);
                    }
                    if t == x {
                        assert(part[i as int] == x);
                    }
                    assert(before.contains(p) == old_part.contains(x));
                }
                assert(r@ =~= pairs_under(pid, part));
            }
            i += 1;
        }
        assert(triples@.take(i as int) =~= triples@);
        r
    }

    /// Adds a pair; one that is there already changes nothing.
    pub fn insert(&mut self, s: u32, o: u32)
        requires
            old(self).wf(),
        ensures
            final(self).wf(),
            final(self).pid == old(self).pid,
            final(self)@ == old(self)@.insert((s, o)),
    {
        let new: bool = add_to_leaf(&mut self.pairs.forward, s, o);
        if new {
            sorted_insert(&mut self.pairs.all_subjects, s);
            let _ = add_to_leaf(&mut self.pairs.reverse, o, s);
            sorted_insert(&mut self.pairs.all_objects, o);
        }
        proof {
            if !new {
                assert(old(self).pairs.forward@.contains_key(s));
            }
            assert forall|a: u32, b: u32|
                leaf_holds(self.pairs.forward@, a, b) == leaf_holds(self.pairs.reverse@, b, a) by {
                assert(leaf_holds(old(self).pairs.forward@, a, b) == leaf_holds(old(self).pairs.reverse@, b, a));
            }
            assert forall|a: u32|
                members(self.pairs.all_subjects@).contains(a) == self.pairs.forward@.contains_key(a) by {
                assert(members(old(self).pairs.all_subjects@).contains(a)
                    == old(self).pairs.forward@.contains_key(a));
            }
            assert forall|a: u32|
                members(self.pairs.all_objects@).contains(a) == self.pairs.reverse@.contains_key(a) by {
                assert(members(old(self).pairs.all_objects@).contains(a)
                    == old(self).pairs.reverse@.contains_key(a));
            }
            assert(self@ =~= old(self)@.insert((s, o)));
        }
    }

    /// Takes a pair out, if it is there.
    pub fn delete(&mut self, s: u32, o: u32)
        requires
            old(self).wf(),
        ensures
            final(self).wf(),
            final(self).pid == old(self).pid,
            final(self)@ == old(self)@.remove((s, o)),
    {
        let found: bool = take_from_leaf(&mut self.pairs.forward, s, o);
        if found {
            if !self.pairs.forward.contains_key(&s) {
                let _ = sorted_remove(&mut self.pairs.all_subjects, s);
            }
            let _ = take_from_leaf(&mut self.pairs.reverse, o, s);
            if !self.pairs.reverse.contains_key(&o) {
                let _ = sorted_remove(&mut self.pairs.all_objects, o);
            }
        }
        proof {
            let f0 = old(self).pairs.forward@;
            let r0 = old(self).pairs.reverse@;
            assert(leaf_holds(f0, s, o) == leaf_holds(r0, o, s));
            if !found && f0.contains_key(s) {
                assert(f0[s]@.contains(f0[s]@[0]));
                assert(leaf_holds(f0, s, f0[s]@[0]));
                assert(leaf_holds(self.pairs.forward@, s, f0[s]@[0]));
            }
            assert forall|a: u32, b: u32|
                leaf_holds(self.pairs.forward@, a, b) == leaf_holds(self.pairs.reverse@, b, a) by {
                assert(leaf_holds(f0, a, b) == leaf_holds(r0, b, a));
            }
            assert forall|a: u32|
                members(self.pairs.all_subjects@).contains(a) == self.pairs.forward@.contains_key(a) by {
                assert(members(old(self).pairs.all_subjects@).contains(a) == f0.contains_key(a));
            }
            assert forall|a: u32|
                members(self.pairs.all_objects@).contains(a) == self.pairs.reverse@.contains_key(a) by {
                assert(members(old(self).pairs.all_objects@).contains(a) == r0.contains_key(a));
            }
            assert(self@ =~= old(self)@.remove((s, o)));
        }
    }

    /// Whether there is no pair.
    pub fn is_empty(&self) -> (r: bool)
        requires
            self.wf(),
        ensures
            r == (self@ == Set::<(u32, u32)>::empty()),
    {
        proof {
            let m = self.pairs.forward@;
            if m.is_empty() {
                assert(self@ =~= Set::<(u32, u32)>::empty());
            } else {
                let k = choose|k: u32| m.contains_key(k);
                assert(m.dom() != Set::<u32>::empty());
                assert(exists|k: u32| m.contains_key(k)) by {
                    if forall|k: u32| !m.contains_key(k) {
                        assert(m.dom() =~= Set::<u32>::empty());
                    }
                }
                assert(m[k]@.contains(m[k]@[0]));
                assert(self@.contains((k, m[k]@[0])));
            }
        }
        self.pairs.forward.is_empty()
    }

    /// The objects of a subject, in order.
    pub fn objects_for(&self, subject: u32) -> (r: &[u32])
        requires
            self.wf(),
        ensures
            increasing(r@),
            members(r@) == objects_of(self@, subject),
    {
        let r: &[u32] = match self.pairs.forward.get(&subject) {
            Some(v) => v.as_slice(),
            None => &[],
        };
        assert(members(r@) =~= objects_of(self@, subject));
        r
    }

    /// The subjects of an object, in order.
    pub fn subjects_for(&self, object: u32) -> (r: &[u32])
        requires
            self.wf(),
        ensures
            increasing(r@),
            members(r@) == subjects_of(self@, object),
    {
        let r: &[u32] = match self.pairs.reverse.get(&object) {
            Some(v) => v.as_slice(),
            None => &[],
        };
        proof {
            assert forall|s: u32|
                members(r@).contains(s) == subjects_of(self@, object).contains(s) by {
                assert(leaf_holds(self.pairs.forward@, s, object) == leaf_holds(self.pairs.reverse@, object, s));
            }
            assert(members(r@) =~= subjects_of(self@, object));
        }
        r
    }

    /// All subjects, in order.
    pub fn all_subjects(&self) -> (r: &[u32])
        requires
            self.wf(),
        ensures
            increasing(r@),
            members(r@) == subjects(self@),
    {
        proof {
            assert forall|s: u32|
                members(self.pairs.all_subjects@).contains(s) == subjects(self@).contains(s) by {
                let m = self.pairs.forward@;
                if m.contains_key(s) {
                    assert(m[s]@.contains(m[s]@[0]));
                    assert(self@.contains((s, m[s]@[0])));
                }
                if subjects(self@).contains(s) {
                    let o = choose|o: u32| self@.contains((s, o));
                    assert(leaf_holds(m, s, o));
                }
            }
            assert(members(self.pairs.all_subjects@) =~= subjects(self@));
        }
        self.pairs.all_subjects.as_slice()
    }

    /// All objects, in order.
    pub fn all_objects(&self) -> (r: &[u32])
        requires
            self.wf(),
        ensures
            increasing(r@),
            members(r@) == objects(self@),
    {
        proof {
            assert forall|o: u32|
                members(self.pairs.all_objects@).contains(o) == objects(self@).contains(o) by {
                let m = self.pairs.reverse@;
                if m.contains_key(o) {
                    let s = m[o]@[0];
                    assert(m[o]@.contains(s));
                    assert(leaf_holds(self.pairs.forward@, s, o) == leaf_holds(m, o, s));
                    assert(self@.contains((s, o)));
                }
                if objects(self@).contains(o) {
                    let s = choose|s: u32| self@.contains((s, o));
                    assert(leaf_holds(self.pairs.forward@, s, o) == leaf_holds(m, o, s));
                }
            }
            assert(members(self.pairs.all_objects@) =~= objects(self@));
        }
        self.pairs.all_objects.as_slice()
    }
}

} // verus!
