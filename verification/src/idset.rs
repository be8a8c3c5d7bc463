//! Sets of identifiers.

use crate::fxmap::{ids_insert, ids_new};
use crate::sorted::{in_order, increasing, members, sort_ids};
use rustc_hash::FxHashSet;
use vstd::prelude::*;

verus! {

/// A set of identifiers that lists them in the order in which they came.
pub struct IdSet {
    pub seen: FxHashSet<u32>,
    pub list: Vec<u32>,
}

impl IdSet {
    pub open spec fn wf(&self) -> bool {
        &&& self.list@.no_duplicates()
        &&& forall|x: u32| self.seen@.contains(x) <==> #[trigger] self.list@.contains(x)
    }

    pub open spec fn ids(&self) -> Set<u32> {
        members(self.list@)
    }

    pub fn new() -> (r: IdSet)
        ensures
            r.wf(),
            r.ids() == Set::<u32>::empty(),
            r.list@.len() == 0,
    {
        let r: IdSet = IdSet { seen: ids_new(), list: Vec::new() };
        assert(r.ids() =~= Set::<u32>::empty());
        r
    }

    /// Adds an identifier; says whether it is new.
    pub fn add_id(&mut self, x: u32) -> (new: bool)
        requires
            old(self).wf(),
        ensures
            final(self).wf(),
            final(self).ids() == old(self).ids().insert(x),
            new == !old(self).ids().contains(x),
            final(self).list@ == (if new {
                old(self).list@.push(x)
            } else {
                old(self).list@
            }),
    {
        let ghost before = self.list@;
        let new: bool = ids_insert(&mut self.seen, x);
        if new {
            self.list.push(x);
        }
        proof {
            assert forall|y: u32| self.seen@.contains(y) <==> #[trigger] self.list@.contains(y) by {
                if new {
                    crate::sorted::lemma_push_contains(before, x, y);
                }
                assert(before.contains(y) <==> old(self).seen@.contains(y));
            }
            assert forall|y: u32| self.ids().contains(y) <==> old(self).ids().insert(x).contains(y) by {
                if new {
                    crate::sorted::lemma_push_contains(before, x, y);
                }
                assert(before.contains(x) <==> old(self).seen@.contains(x));
            }
            assert(self.ids() =~= old(self).ids().insert(x));
            if new {
                assert(!before.contains(x));
            }
        }
        new
    }

    /// Adds every identifier of a list.
    pub fn add_all(&mut self, xs: &[u32])
        requires
            old(self).wf(),
        ensures
            final(self).wf(),
            final(self).ids() == old(self).ids().union(members(xs@)),
    {
        let mut i: usize = 0;
        assert(self.ids() =~= old(self).ids().union(members(xs@.take(0))));
        while i < xs.len()
            invariant
                i <= xs@.len(),
                self.wf(),
                self.ids() == old(self).ids().union(members(xs@.take(i as int))),
            decreases xs@.len() - i,
        {
            let _new: bool = self.add_id(xs[i]);
            proof {
                assert(xs@.take(i + 1) =~= xs@.take(i as int).push(xs@[i as int]));
                assert forall|y: u32| members(xs@.take(i + 1)).contains(y) <==> members(
                    xs@.take(i as int),
                ).insert(xs@[i as int]).contains(y) by {
                    crate::sorted::lemma_push_contains(xs@.take(i as int), xs@[i as int], y);
                }
                assert(members(xs@.take(i + 1)) =~= members(xs@.take(i as int)).insert(
                    xs@[i as int],
                ));
                assert(self.ids() =~= old(self).ids().union(members(xs@.take(i + 1))));
            }
            i += 1;
        }
        assert(xs@.take(i as int) =~= xs@);
    }

    /// The identifiers, in order.
    pub fn sorted(&self) -> (r: Vec<u32>)
        requires
            self.wf(),
        ensures
            r@ == in_order(self.ids()),
            increasing(r@),
            members(r@) == self.ids(),
    {
        sort_ids(self.list.as_slice())
    }
}

pub proof fn lemma_distinct_bound(s: Seq<u32>)
    requires
        s.no_duplicates(),
    ensures
        s.len() <= 0x1_0000_0000,
{
    s.unique_seq_to_set();
    let f = |x: u32| x as int;
    let set = s.to_set();
    let ints = set.map(f);
    let all = vstd::set_lib::set_int_range(0, 0x1_0000_0000);
    vstd::set_lib::lemma_int_range(0, 0x1_0000_0000);
    vstd::set_lib::lemma_map_size(set, ints, f);
    assert(ints.subset_of(all));
    vstd::set_lib::lemma_len_subset(ints, all);
}

} // verus!
