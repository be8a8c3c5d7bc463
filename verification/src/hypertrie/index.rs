//! A permutation index: a flat base and a small delta over it.

use crate::fxmap::{fx_get, fx_insert, fx_is_empty, fx_keys, fx_new, fx_remove, pair_key, unpack_key};
use crate::hypertrie::csr::{sort_dedup, FlatCsr, IdTriple};
use crate::sorted::{find, merge_union_minus, sorted_insert, sorted_remove};
use rustc_hash::FxHashMap;
use std::borrow::Cow;
use vstd::prelude::*;

verus! {

broadcast use {crate::fxmap::lemma_pair_key, crate::fxmap::lemma_key_pair};

/// Whether a delta records the triple.
pub open spec fn delta_has(m: Map<u64, Vec<u32>>, t: IdTriple) -> bool {
    m.contains_key(pair_key(t.0, t.1)) && m[pair_key(t.0, t.1)]@.contains(t.2)
}

/// The triples that a delta records.
pub open spec fn delta_set(m: Map<u64, Vec<u32>>) -> Set<IdTriple> {
    Set::new(|t: IdTriple| delta_has(m, t))
}

/// Per pair a non-empty, strictly increasing list of third values.
pub open spec fn delta_ok(m: Map<u64, Vec<u32>>) -> bool {
    forall|k: u64| #[trigger]
        m.contains_key(k) ==> crate::sorted::increasing(m[k]@) && m[k]@.len() > 0
}

/// Whether the delta records the triple.
fn leaf_has(map: &FxHashMap<u64, Vec<u32>>, first: u32, second: u32, third: u32) -> (r: bool)
    requires
        delta_ok(map@),
    ensures
        r == delta_has(map@, (first, second, third)),
{
    match fx_get(map, pair_key(first, second)) {
        Some(leaf) => match find(leaf.as_slice(), third) {
            Ok(i) => {
                assert(leaf@[i as int] == third);
                true
            },
            Err(_) => false,
        },
        None => false,
    }
}

/// Records the triple in the delta.
fn insert_into_leaf(map: &mut FxHashMap<u64, Vec<u32>>, first: u32, second: u32, third: u32)
    requires
        delta_ok(old(map)@),
    ensures
        delta_ok(final(map)@),
        delta_set(final(map)@) == delta_set(old(map)@).insert((first, second, third)),
{
    let key: u64 = pair_key(first, second);
    let mut leaf: Vec<u32> = match fx_remove(map, key) {
        Some(v) => v,
        None => Vec::new(),
    };
    let ghost before = leaf@;
    sorted_insert(&mut leaf, third);
    proof {
        assert(crate::sorted::members(leaf@).contains(third));
    }
    fx_insert(map, key, leaf);
    proof {
        let m0 = old(map)@;
        let m1 = map@;
        assert forall|t: IdTriple| delta_set(m1).contains(t) == delta_set(m0).insert(
            (first, second, third),
        ).contains(t) by {
            let k = pair_key(t.0, t.1);
            if k == key {
                assert(t.0 == first && t.1 == second);
                assert(crate::sorted::members(m1[k]@).contains(t.2) == crate::sorted::members(
                    before,
                ).insert(third).contains(t.2));
            }
        }
        assert(delta_set(m1) =~= delta_set(m0).insert((first, second, third)));
    }
}

/// Takes the triple out of the delta; says whether it was there.
fn remove_from_leaf(map: &mut FxHashMap<u64, Vec<u32>>, first: u32, second: u32, third: u32) -> (r:
    bool)
    requires
        delta_ok(old(map)@),
    ensures
        delta_ok(final(map)@),
        r == delta_has(old(map)@, (first, second, third)),
        delta_set(final(map)@) == delta_set(old(map)@).remove((first, second, third)),
{
    let key: u64 = pair_key(first, second);
    let ghost m0 = map@;
    match fx_remove(map, key) {
        None => {
            proof {
                assert(map@ =~= m0);
                assert(delta_set(map@) =~= delta_set(m0).remove((first, second, third)));
            }
            false
        },
        Some(leaf0) => {
            let mut leaf: Vec<u32> = leaf0;
            let ghost before = leaf@;
            let found: bool = sorted_remove(&mut leaf, third);
            if leaf.len() > 0 {
                fx_insert(map, key, leaf);
            }
            proof {
                let m1 = map@;
                assert forall|t: IdTriple| delta_set(m1).contains(t) == delta_set(m0).remove(
                    (first, second, third),
                ).contains(t) by {
                    let k = pair_key(t.0, t.1);
                    if k == key {
                        assert(t.0 == first && t.1 == second);
                        assert(crate::sorted::members(leaf@).contains(t.2)
                            == crate::sorted::members(before).remove(third).contains(t.2));
                    }
                }
                assert(delta_set(m1) =~= delta_set(m0).remove((first, second, third)));
            }
            found
        },
    }
}

/// A flat base with a delta of insertions and deletions over it.
///
/// The insertions are not in the base, the deletions are. When the delta has
/// grown large against the base it is folded into a new base.
pub struct LayeredIndex {
    base: FlatCsr,
    ins: FxHashMap<u64, Vec<u32>>,
    del: FxHashMap<u64, Vec<u32>>,
    len: usize,
}

impl View for LayeredIndex {
    type V = Set<IdTriple>;

    /// The stored triples.
    open spec fn view(&self) -> Set<IdTriple> {
        self.base_set().difference(self.deleted()).union(self.inserted())
    }
}

impl LayeredIndex {
    /// The triples of the base.
    pub closed spec fn base_set(&self) -> Set<IdTriple> {
        self.base@
    }

    /// The triples added since the base was built.
    pub closed spec fn inserted(&self) -> Set<IdTriple> {
        delta_set(self.ins@)
    }

    /// The triples of the base that have been removed.
    pub closed spec fn deleted(&self) -> Set<IdTriple> {
        delta_set(self.del@)
    }

    pub closed spec fn wf(&self) -> bool {
        &&& self.base.wf()
        &&& self.base.flat().len() <= u32::MAX
        &&& delta_ok(self.ins@)
        &&& delta_ok(self.del@)
        &&& self.inserted().disjoint(self.base_set())
        &&& self.deleted().subset_of(self.base_set())
        &&& self@.finite()
        &&& self.len == self@.len()
        &&& self.len <= u32::MAX
    }
}

/// The first values of a set of triples.
pub open spec fn first_values(set: Set<IdTriple>) -> Set<u32> {
    Set::new(|f: u32| exists|s: u32, t: u32| set.contains((f, s, t)))
}

/// The second values under `first`.
pub open spec fn second_values(set: Set<IdTriple>, first: u32) -> Set<u32> {
    Set::new(|s: u32| exists|t: u32| set.contains((first, s, t)))
}

/// The third values under `(first, second)`.
pub open spec fn third_values(set: Set<IdTriple>, first: u32, second: u32) -> Set<u32> {
    Set::new(|t: u32| set.contains((first, second, t)))
}

/// The `(second, third)` pairs under `first`.
pub open spec fn pairs_under(set: Set<IdTriple>, first: u32) -> Set<(u32, u32)> {
    Set::new(|p: (u32, u32)| set.contains((first, p.0, p.1)))
}

/// The triples with `first` in front.
pub open spec fn under(set: Set<IdTriple>, first: u32) -> Set<IdTriple> {
    set.filter(|t: IdTriple| t.0 == first)
}

/// A count, cut off at the largest `usize`.
pub open spec fn clamped(n: nat) -> usize {
    if n <= usize::MAX {
        n as usize
    } else {
        usize::MAX
    }
}

/// `k` times a count.
pub(crate) fn times(n: usize, k: u8) -> (r: usize)
    requires
        k > 0,
    ensures
        forall|exact: nat| n == #[trigger] clamped(exact) ==> r == clamped(exact * (k as nat)),
{
    assert(n * k <= usize::MAX * 255) by (nonlinear_arith)
        requires
            n <= usize::MAX,
            k <= 255,
    ;
    let wide: u128 = n as u128 * k as u128;
    assert forall|exact: nat| n == #[trigger] clamped(exact) implies (if wide <= usize::MAX {
        wide as usize
    } else {
        usize::MAX
    }) == clamped(exact * (k as nat)) by {
        if exact <= usize::MAX {
            assert(wide == exact * (k as nat));
        } else {
            assert(exact * (k as nat) >= exact) by (nonlinear_arith)
                requires
                    k >= 1,
            ;
            assert(wide >= n) by (nonlinear_arith)
                requires
                    wide == n * k,
                    k >= 1,
            ;
        }
    }
    if wide <= usize::MAX as u128 {
        wide as usize
    } else {
        usize::MAX
    }
}

/// The pairs in front of triples, as keys.
pub open spec fn leaf_keys(set: Set<IdTriple>) -> Set<u64> {
    Set::new(
        |k: u64|
            exists|t: u32| #[trigger]
                set.contains((crate::fxmap::key_first(k), crate::fxmap::key_second(k), t)),
    )
}

/// How many lists a delta has.
fn leaf_count(m: &FxHashMap<u64, Vec<u32>>) -> (n: usize)
    requires
        delta_ok(m@),
    ensures
        n == clamped(leaf_keys(delta_set(m@)).len()),
{
    let keys: Vec<u64> = fx_keys(m);
    proof {
        keys@.unique_seq_to_set();
        assert forall|k: u64| leaf_keys(delta_set(m@)).contains(k) == keys@.to_set().contains(k) by {
            let f = crate::fxmap::key_first(k);
            let s = crate::fxmap::key_second(k);
            assert(pair_key(f, s) == k);
            if keys@.contains(k) {
                let t = m@[k]@[0];
                assert(m@[k]@.contains(t));
                assert(delta_has(m@, (f, s, t)));
                assert(delta_set(m@).contains((f, s, t)));
            }
            if leaf_keys(delta_set(m@)).contains(k) {
                let t = choose|t: u32| #[trigger] delta_set(m@).contains((f, s, t));
                assert(delta_has(m@, (f, s, t)));
            }
        }
        assert(leaf_keys(delta_set(m@)) =~= keys@.to_set());
    }
    keys.len()
}

/// The triples of the delta whose pair is among the keys of `ks`.
spec fn delta_part(m: Map<u64, Vec<u32>>, ks: Seq<u64>) -> Set<IdTriple> {
    Set::new(|t: IdTriple| delta_has(m, t) && ks.contains(pair_key(t.0, t.1)))
}

/// The triples of one leaf.
spec fn leaf_set(m: Map<u64, Vec<u32>>, k: u64) -> Set<IdTriple> {
    Set::new(|t: IdTriple| pair_key(t.0, t.1) == k && m[k]@.contains(t.2))
}

proof fn lemma_leaf_set(m: Map<u64, Vec<u32>>, k: u64)
    requires
        delta_ok(m),
        m.contains_key(k),
    ensures
        leaf_set(m, k).finite(),
        leaf_set(m, k).len() == m[k]@.len(),
{
    let f = crate::fxmap::key_first(k);
    let s = crate::fxmap::key_second(k);
    let list = m[k]@.map_values(|x: u32| (f, s, x));
    assert forall|a: int, b: int| 0 <= a < b < list.len() implies list[a] != list[b] by {
        assert(m[k]@[a] < m[k]@[b]);
    }
    list.unique_seq_to_set();
    assert forall|t: IdTriple| leaf_set(m, k).contains(t) == list.to_set().contains(t) by {
        if leaf_set(m, k).contains(t) {
            let a = choose|a: int| 0 <= a < m[k]@.len() && m[k]@[a] == t.2;
            assert(list[a] == t);
        }
        if list.contains(t) {
            let a = choose|a: int| 0 <= a < list.len() && list[a] == t;
            assert(m[k]@[a] == t.2);
        }
    }
    assert(leaf_set(m, k) =~= list.to_set());
}

proof fn lemma_delta_part(m: Map<u64, Vec<u32>>, ks: Seq<u64>, k: u64)
    requires
        delta_ok(m),
        m.contains_key(k),
        !ks.contains(k),
        delta_part(m, ks).finite(),
    ensures
        delta_part(m, ks.push(k)) == delta_part(m, ks).union(leaf_set(m, k)),
        delta_part(m, ks).disjoint(leaf_set(m, k)),
        delta_part(m, ks.push(k)).finite(),
        delta_part(m, ks.push(k)).len() == delta_part(m, ks).len() + m[k]@.len(),
{
    let a = delta_part(m, ks);
    let b = leaf_set(m, k);
    let c = delta_part(m, ks.push(k));
    lemma_leaf_set(m, k);
    assert forall|t: IdTriple| c.contains(t) == a.union(b).contains(t) by {
        let key = pair_key(t.0, t.1);
        if ks.contains(key) {
            let i = choose|i: int| 0 <= i < ks.len() && ks[i] == key;
            assert(ks.push(k)[i] == key);
        }
        assert(ks.push(k)[ks.len() as int] == k);
        if ks.push(k).contains(key) && key != k {
            let i = choose|i: int| 0 <= i < ks.push(k).len() && ks.push(k)[i] == key;
            assert(ks[i] == key);
        }
    }
    assert(c =~= a.union(b));
    vstd::set_lib::lemma_set_disjoint_lens(a, b);
}

/// How many triples a delta records.
fn delta_len(m: &FxHashMap<u64, Vec<u32>>) -> (n: usize)
    requires
        delta_ok(m@),
    ensures
        delta_set(m@).finite(),
        n == clamped(delta_set(m@).len()),
{
    let keys: Vec<u64> = fx_keys(m);
    let mut n: usize = 0;
    let mut i: usize = 0;
    proof {
        assert(delta_part(m@, keys@.take(0)) =~= Set::empty());
    }
    while i < keys.len()
        invariant
            i <= keys@.len(),
            delta_ok(m@),
            keys@.no_duplicates(),
            forall|k: u64| #[trigger] keys@.contains(k) <==> m@.contains_key(k),
            delta_part(m@, keys@.take(i as int)).finite(),
            n == clamped(delta_part(m@, keys@.take(i as int)).len()),
        decreases keys@.len() - i,
    {
        let k: u64 = keys[i];
        proof {
            assert(keys@.contains(k));
            assert(keys@.take(i + 1) =~= keys@.take(i as int).push(k));
            assert(!keys@.take(i as int).contains(k));
            lemma_delta_part(m@, keys@.take(i as int), k);
        }
        match fx_get(m, k) {
            Some(leaf) => {
                n = n.saturating_add(leaf.len());
            },
            None => {},
        }
        i += 1;
    }
    proof {
        assert(keys@.take(i as int) =~= keys@);
        assert(delta_part(m@, keys@) =~= delta_set(m@));
    }
    n
}

/// How many triples a delta records under `first`.
fn delta_len_under(m: &FxHashMap<u64, Vec<u32>>, first: u32) -> (n: usize)
    requires
        delta_ok(m@),
    ensures
        under(delta_set(m@), first).finite(),
        n == clamped(under(delta_set(m@), first).len()),
{
    let keys: Vec<u64> = fx_keys(m);
    let mut n: usize = 0;
    let mut i: usize = 0;
    proof {
        assert(delta_part(m@, keys@.take(0)) =~= Set::empty());
        assert(under(delta_part(m@, keys@.take(0)), first) =~= Set::empty());
    }
    while i < keys.len()
        invariant
            i <= keys@.len(),
            delta_ok(m@),
            keys@.no_duplicates(),
            forall|k: u64| #[trigger] keys@.contains(k) <==> m@.contains_key(k),
            delta_part(m@, keys@.take(i as int)).finite(),
            under(delta_part(m@, keys@.take(i as int)), first).finite(),
            n == clamped(under(delta_part(m@, keys@.take(i as int)), first).len()),
        decreases keys@.len() - i,
    {
        let k: u64 = keys[i];
        let ghost ks = keys@.take(i as int);
        proof {
            assert(keys@.contains(k));
            assert(keys@.take(i + 1) =~= ks.push(k));
            assert(!ks.contains(k));
            lemma_delta_part(m@, ks, k);
            lemma_leaf_set(m@, k);
            let a = under(delta_part(m@, ks), first);
            let b = leaf_set(m@, k);
            let c = under(delta_part(m@, ks.push(k)), first);
            if crate::fxmap::key_first(k) == first {
                assert(c =~= a.union(b));
                assert(a.disjoint(b));
                vstd::set_lib::lemma_set_disjoint_lens(a, b);
            } else {
                assert(c =~= a);
            }
        }
        let (f, _s) = unpack_key(k);
        if f == first {
            match fx_get(m, k) {
                Some(leaf) => {
                    n = n.saturating_add(leaf.len());
                },
                None => {},
            }
        }
        i += 1;
    }
    proof {
        assert(keys@.take(i as int) =~= keys@);
        assert(delta_part(m@, keys@) =~= delta_set(m@));
    }
    n
}

impl LayeredIndex {
    /// A stored set is finite and its size fits an identifier.
    pub proof fn lemma_size(&self)
        requires
            self.wf(),
        ensures
            self@.finite(),
            self@.len() <= u32::MAX,
    {
    }

    pub fn empty() -> (r: LayeredIndex)
        ensures
            r.wf(),
            r@ == Set::<IdTriple>::empty(),
            r.inserted() == Set::<IdTriple>::empty(),
            r.deleted() == Set::<IdTriple>::empty(),
    {
        LayeredIndex::from_base(FlatCsr::empty())
    }

    /// An index over a triple list, duplicates dropped, with an empty delta.
    pub fn build(triples: &[IdTriple]) -> (r: LayeredIndex)
        requires
            triples@.len() <= u32::MAX,
        ensures
            r.wf(),
            r@ == crate::hypertrie::csr::triple_set(triples@),
            r.inserted() == Set::<IdTriple>::empty(),
            r.deleted() == Set::<IdTriple>::empty(),
    {
        LayeredIndex::from_base(FlatCsr::build(triples))
    }

    /// An index over a base, with an empty delta.
    pub fn from_base(base: FlatCsr) -> (r: LayeredIndex)
        requires
            base.wf(),
            base.flat().len() <= u32::MAX,
        ensures
            r.wf(),
            r@ == base@,
            r.base_set() == base@,
            r.inserted() == Set::<IdTriple>::empty(),
            r.deleted() == Set::<IdTriple>::empty(),
    {
        let len: usize = base.len();
        let r: LayeredIndex = LayeredIndex { base, ins: fx_new(), del: fx_new(), len };
        proof {
            base.lemma_flat();
            assert(r.inserted() =~= Set::<IdTriple>::empty());
            assert(r.deleted() =~= Set::<IdTriple>::empty());
            assert(r@ =~= base@);
        }
        r
    }

    /// The flat base.
    pub fn base(&self) -> (r: &FlatCsr)
        requires
            self.wf(),
        ensures
            r.wf(),
            r.flat().len() <= u32::MAX,
            r@ == self.base_set(),
    {
        &self.base
    }

    /// Whether the base alone holds the contents.
    pub fn delta_is_empty(&self) -> (r: bool)
        requires
            self.wf(),
        ensures
            r == (self.inserted() == Set::<IdTriple>::empty() && self.deleted() == Set::<
                IdTriple,
            >::empty()),
            r ==> self@ == self.base_set(),
    {
        let a: bool = fx_is_empty(&self.ins);
        let b: bool = fx_is_empty(&self.del);
        proof {
            lemma_delta_empty(self.ins@);
            lemma_delta_empty(self.del@);
            if a && b {
                assert(self@ =~= self.base_set());
            }
        }
        a && b
    }

    /// How many words the arrays of the base have.
    pub closed spec fn base_words(&self) -> nat {
        let r = self.base.raw();
        r[0].len() + r[1].len() + r[2].len() + r[3].len() + r[4].len()
    }

    /// The logical size in bytes: four for each word of the base and for each
    /// entry of the delta, and 24 for each list of the delta.
    pub open spec fn heap_size(&self) -> nat {
        4 * (self.base_words() + self.inserted().len() + self.deleted().len()) + 24 * (leaf_keys(
            self.inserted(),
        ).len() + leaf_keys(self.deleted()).len())
    }

    /// The logical size in bytes.
    pub fn heap_bytes(&self) -> (n: usize)
        requires
            self.wf(),
        ensures
            n == clamped(self.heap_size()),
    {
        let a: [&[u32]; 5] = self.base.arrays();
        let base: usize = a[0].len().saturating_add(a[1].len()).saturating_add(
            a[2].len(),
        ).saturating_add(a[3].len()).saturating_add(a[4].len());
        proof {
            let raw = seq![a[0]@, a[1]@, a[2]@, a[3]@, a[4]@];
            assert(raw == self.base.raw());
            assert(raw[0] == a[0]@ && raw[1] == a[1]@ && raw[2] == a[2]@ && raw[3] == a[3]@
                && raw[4] == a[4]@);
            assert(base == clamped(self.base_words()));
        }
        let words: usize = base.saturating_add(self.delta_count());
        let lists: usize = leaf_count(&self.ins).saturating_add(leaf_count(&self.del));
        assert(words == clamped(
            self.base_words() + self.inserted().len() + self.deleted().len(),
        ));
        assert(lists == clamped(
            leaf_keys(self.inserted()).len() + leaf_keys(self.deleted()).len(),
        ));
        times(words, 4).saturating_add(times(lists, 24))
    }

    /// Number of delta entries, for the compaction rule.
    fn delta_count(&self) -> (n: usize)
        requires
            self.wf(),
        ensures
            self.inserted().finite(),
            self.deleted().finite(),
            n == clamped(self.inserted().len() + self.deleted().len()),
    {
        delta_len(&self.ins).saturating_add(delta_len(&self.del))
    }

    /// Folds the delta into the base once it has grown too large against it.
    fn maybe_compact(&mut self)
        requires
            old(self).wf(),
        ensures
            final(self).wf(),
            final(self)@ == old(self)@,
    {
        let delta: usize = self.delta_count();
        if delta > 1024 && (delta as u128) * 4 > self.base.len() as u128 {
            self.compact();
        }
    }

    /// Folds the entire delta into a new flat base.
    pub fn compact(&mut self)
        requires
            old(self).wf(),
        ensures
            final(self).wf(),
            final(self)@ == old(self)@,
            final(self).base_set() == old(self)@,
            final(self).inserted() == Set::<IdTriple>::empty(),
            final(self).deleted() == Set::<IdTriple>::empty(),
    {
        if self.delta_is_empty() {
            return ;
        }
        let triples: Vec<IdTriple> = self.all_triples();
        proof {
            crate::hypertrie::csr::lemma_triple_set_len(triples@);
        }
        let fresh: LayeredIndex = LayeredIndex::build(triples.as_slice());
        self.base = fresh.base;
        self.ins = fresh.ins;
        self.del = fresh.del;
        self.len = fresh.len;
        assert(self@ =~= self.base_set());
    }

    /// Inserts the triple; says whether it was new.
    pub fn insert(&mut self, first: u32, second: u32, third: u32) -> (new: bool)
        requires
            old(self).wf(),
            old(self)@.len() < u32::MAX,
        ensures
            final(self).wf(),
            new == !old(self)@.contains((first, second, third)),
            final(self)@ == old(self)@.insert((first, second, third)),
    {
        let ghost t: IdTriple = (first, second, third);
        let ghost s0 = *self;
        if self.contains(first, second, third) {
            assert(self@ =~= s0@.insert(t));
            return false;
        }
        let undeleted: bool = remove_from_leaf(&mut self.del, first, second, third);
        if !undeleted {
            insert_into_leaf(&mut self.ins, first, second, third);
            proof {
                assert(!s0.deleted().contains(t));
                assert(delta_set(self.del@) =~= delta_set(s0.del@));
            }
        } else {
            assert(s0.deleted().contains(t));
            assert(s0.base_set().contains(t));
        }
        self.len += 1;
        proof {
            assert(self@ =~= s0@.insert(t));
        }
        self.maybe_compact();
        true
    }

    /// Removes the triple; says whether it was there.
    pub fn delete(&mut self, first: u32, second: u32, third: u32) -> (existed: bool)
        requires
            old(self).wf(),
        ensures
            final(self).wf(),
            existed == old(self)@.contains((first, second, third)),
            final(self)@ == old(self)@.remove((first, second, third)),
    {
        let ghost t: IdTriple = (first, second, third);
        let ghost s0 = *self;
        if !self.contains(first, second, third) {
            assert(self@ =~= s0@.remove(t));
            return false;
        }
        let uninserted: bool = remove_from_leaf(&mut self.ins, first, second, third);
        if !uninserted {
            insert_into_leaf(&mut self.del, first, second, third);
            proof {
                assert(!s0.inserted().contains(t));
                assert(delta_set(self.ins@) =~= delta_set(s0.ins@));
                assert(s0.base_set().contains(t));
            }
        } else {
            assert(s0.inserted().contains(t));
            assert(!s0.base_set().contains(t));
        }
        proof {
            assert(s0@.len() > 0) by {
                if s0@.len() == 0 {
                    assert(s0@ =~= Set::empty());
                }
            }
        }
        self.len -= 1;
        proof {
            assert(self@ =~= s0@.remove(t));
        }
        self.maybe_compact();
        true
    }

    /// Exact existence check.
    pub fn contains(&self, first: u32, second: u32, third: u32) -> (r: bool)
        requires
            self.wf(),
        ensures
            r == self@.contains((first, second, third)),
    {
        if leaf_has(&self.del, first, second, third) {
            assert(self.deleted().contains((first, second, third)));
            return false;
        }
        if leaf_has(&self.ins, first, second, third) {
            assert(self.inserted().contains((first, second, third)));
            return true;
        }
        self.base.contains(first, second, third)
    }

    /// The third values under `(first, second)`, in order: borrowed from the
    /// base where the delta does not touch the pair, merged otherwise.
    pub fn query_two(&self, first: u32, second: u32) -> (r: Cow<'_, [u32]>)
        requires
            self.wf(),
        ensures
            crate::sorted::increasing(r@),
            crate::sorted::members(r@) == third_values(self@, first, second),
    {
        let base: &[u32] = self.base.query_two(first, second);
        let key: u64 = pair_key(first, second);
        let ins: Option<&Vec<u32>> = fx_get(&self.ins, key);
        let del: Option<&Vec<u32>> = fx_get(&self.del, key);
        let ghost want = third_values(self@, first, second);
        proof {
            assert forall|t: u32| base@.contains(t) <==> self.base_set().contains((first, second, t)) by {
            }
            assert forall|t: u32| want.contains(t) == ((base@.contains(t) && !self.deleted().contains(
                (first, second, t),
            )) || self.inserted().contains((first, second, t))) by {
            }
        }
        if ins.is_none() && del.is_none() {
            proof {
                assert(crate::sorted::members(base@) =~= want);
            }
            return Cow::Borrowed(base);
        }
        let none: Vec<u32> = Vec::new();
        let ins_leaf: &[u32] = match ins {
            Some(v) => v.as_slice(),
            None => none.as_slice(),
        };
        let del_leaf: &[u32] = match del {
            Some(v) => v.as_slice(),
            None => none.as_slice(),
        };
        proof {
            assert forall|t: u32| ins_leaf@.contains(t) <==> self.inserted().contains(
                (first, second, t),
            ) by {
            }
            assert forall|t: u32| del_leaf@.contains(t) <==> self.deleted().contains(
                (first, second, t),
            ) by {
            }
            assert forall|x: u32| !(base@.contains(x) && ins_leaf@.contains(x)) by {
                if base@.contains(x) && ins_leaf@.contains(x) {
                    assert(self.base_set().contains((first, second, x)));
                    assert(self.inserted().contains((first, second, x)));
                }
            }
        }
        let merged: Vec<u32> = merge_union_minus(base, ins_leaf, del_leaf);
        proof {
            assert forall|t: u32| crate::sorted::members(merged@).contains(t) == want.contains(t) by {
                if self.deleted().contains((first, second, t)) && self.inserted().contains(
                    (first, second, t),
                ) {
                    assert(self.base_set().contains((first, second, t)));
                }
            }
            assert(crate::sorted::members(merged@) =~= want);
        }
        Cow::Owned(merged)
    }

    /// The first values of the base and of the insertions, in order. A value
    /// stays listed while the base holds it, also when all its triples have
    /// been deleted since.
    pub fn first_keys(&self) -> (ks: Vec<u32>)
        requires
            self.wf(),
        ensures
            crate::sorted::increasing(ks@),
            crate::sorted::members(ks@) == first_values(self.base_set().union(self.inserted())),
    {
        let base: &[u32] = self.base.first_values();
        let mut ks: Vec<u32> = vstd::slice::slice_to_vec(base);
        let keys: Vec<u64> = fx_keys(&self.ins);
        let mut i: usize = 0;
        while i < keys.len()
            invariant
                i <= keys@.len(),
                crate::sorted::increasing(ks@),
                forall|f: u32| #[trigger]
                    crate::sorted::members(ks@).contains(f) <==> base@.contains(f) || has_first(
                        keys@.take(i as int),
                        f,
                    ),
            decreases keys@.len() - i,
        {
            let (f, _s) = unpack_key(keys[i]);
            let ghost before = ks@;
            sorted_insert(&mut ks, f);
            proof {
                assert(keys@.take(i + 1) =~= keys@.take(i as int).push(keys@[i as int]));
                assert forall|g: u32| #[trigger] crate::sorted::members(ks@).contains(g) <==> base@.contains(g)
                    || has_first(keys@.take(i + 1), g) by {
                    assert(crate::sorted::members(ks@).contains(g) == (crate::sorted::members(
                        before,
                    ).contains(g) || g == f));
                    lemma_has_first_push(keys@.take(i as int), keys@[i as int], g);
                }
            }
            i += 1;
        }
        proof {
            assert(keys@.take(i as int) =~= keys@);
            let all = self.base_set().union(self.inserted());
            assert forall|f: u32| crate::sorted::members(ks@).contains(f) == first_values(
                all,
            ).contains(f) by {
                if base@.contains(f) {
                    let (s, t) = choose|s: u32, t: u32| self.base_set().contains((f, s, t));
                    assert(all.contains((f, s, t)));
                }
                if has_first(keys@, f) {
                    let j = choose|j: int|
                        0 <= j < keys@.len() && crate::fxmap::key_first(#[trigger] keys@[j]) == f;
                    assert(keys@.contains(keys@[j]));
                    let k = keys@[j];
                    let s = crate::fxmap::key_second(k);
                    let t = self.ins@[k]@[0];
                    assert(self.ins@[k]@.contains(t));
                    assert(self.inserted().contains((f, s, t)));
                    assert(all.contains((f, s, t)));
                }
                if first_values(all).contains(f) {
                    let (s, t) = choose|s: u32, t: u32| all.contains((f, s, t));
                    if self.base_set().contains((f, s, t)) {
                        assert(base@.contains(f));
                    } else {
                        let k = pair_key(f, s);
                        assert(self.ins@.contains_key(k));
                        assert(keys@.contains(k));
                        let j = choose|j: int| 0 <= j < keys@.len() && keys@[j] == k;
                        assert(crate::fxmap::key_first(keys@[j]) == f);
                    }
                }
            }
            assert(crate::sorted::members(ks@) =~= first_values(all));
        }
        ks
    }

    /// The second values that may occur under `first`: those of the base and of
    /// the insertions, in order.
    fn second_candidates(&self, first: u32) -> (out: Vec<u32>)
        requires
            self.wf(),
        ensures
            crate::sorted::increasing(out@),
            crate::sorted::members(out@) == second_values(
                self.base_set().union(self.inserted()),
                first,
            ),
    {
        let base: &[u32] = self.base.seconds_of(first);
        let mut out: Vec<u32> = vstd::slice::slice_to_vec(base);
        let keys: Vec<u64> = fx_keys(&self.ins);
        let mut i: usize = 0;
        while i < keys.len()
            invariant
                i <= keys@.len(),
                crate::sorted::increasing(out@),
                forall|s: u32| #[trigger]
                    crate::sorted::members(out@).contains(s) <==> base@.contains(s) || keys@.take(
                        i as int,
                    ).contains(pair_key(first, s)),
            decreases keys@.len() - i,
        {
            let (f, s) = unpack_key(keys[i]);
            let ghost before = out@;
            if f == first {
                sorted_insert(&mut out, s);
            }
            proof {
                assert(keys@.take(i + 1) =~= keys@.take(i as int).push(keys@[i as int]));
                assert forall|g: u32| #[trigger] crate::sorted::members(out@).contains(g) <==> base@.contains(g)
                    || keys@.take(i + 1).contains(pair_key(first, g)) by {
                    assert(crate::sorted::members(out@).contains(g) == (crate::sorted::members(
                        before,
                    ).contains(g) || (f == first && g == s)));
                    lemma_push_key(keys@.take(i as int), keys@[i as int], pair_key(first, g));
                    assert(keys@[i as int] == pair_key(f, s));
                    if keys@[i as int] == pair_key(first, g) {
                        assert(f == first && g == s);
                    }
                }
            }
            i += 1;
        }
        proof {
            assert(keys@.take(i as int) =~= keys@);
            let all = self.base_set().union(self.inserted());
            assert forall|s: u32| crate::sorted::members(out@).contains(s) == second_values(
                all,
                first,
            ).contains(s) by {
                if base@.contains(s) {
                    let t = choose|t: u32| self.base_set().contains((first, s, t));
                    assert(all.contains((first, s, t)));
                }
                if keys@.contains(pair_key(first, s)) {
                    let k = pair_key(first, s);
                    let t = self.ins@[k]@[0];
                    assert(self.ins@[k]@.contains(t));
                    assert(self.inserted().contains((first, s, t)));
                    assert(all.contains((first, s, t)));
                }
                if second_values(all, first).contains(s) {
                    let t = choose|t: u32| all.contains((first, s, t));
                    if self.base_set().contains((first, s, t)) {
                        assert(base@.contains(s));
                    } else {
                        let k = pair_key(first, s);
                        assert(self.ins@.contains_key(k));
                        assert(keys@.contains(k));
                        let j = choose|j: int| 0 <= j < keys@.len() && keys@[j] == k;
                    }
                }
            }
            assert(crate::sorted::members(out@) =~= second_values(all, first));
        }
        out
    }

    /// The distinct second values under `first`, in order.
    pub fn seconds_of(&self, first: u32) -> (r: Cow<'_, [u32]>)
        requires
            self.wf(),
        ensures
            crate::sorted::increasing(r@),
            crate::sorted::members(r@) == second_values(self@, first),
    {
        if self.delta_is_empty() {
            let base: &[u32] = self.base.seconds_of(first);
            proof {
                assert(crate::sorted::members(base@) =~= second_values(self@, first));
            }
            return Cow::Borrowed(base);
        }
        let cands: Vec<u32> = self.second_candidates(first);
        let mut out: Vec<u32> = Vec::new();
        let mut i: usize = 0;
        while i < cands.len()
            invariant
                i <= cands@.len(),
                self.wf(),
                crate::sorted::increasing(cands@),
                crate::sorted::increasing(out@),
                forall|k: int, l: int|
                    0 <= k < out@.len() && i <= l < cands@.len() ==> out@[k] < cands@[l],
                forall|s: u32|
                    crate::sorted::members(out@).contains(s) <==> cands@.take(i as int).contains(s)
                        && second_values(self@, first).contains(s),
            decreases cands@.len() - i,
        {
            let s: u32 = cands[i];
            let leaf: Cow<'_, [u32]> = self.query_two(first, s);
            let alive: bool = cow_len(&leaf) > 0;
            let ghost before = out@;
            if alive {
                out.push(s);
            }
            proof {
                assert(alive == second_values(self@, first).contains(s)) by {
                    if alive {
                        assert(crate::sorted::members(leaf@).contains(leaf@[0]));
                        assert(self@.contains((first, s, leaf@[0])));
                    }
                    if second_values(self@, first).contains(s) {
                        let t = choose|t: u32| self@.contains((first, s, t));
                        assert(third_values(self@, first, s).contains(t));
                        assert(leaf@.contains(t));
                    }
                }
                assert(cands@.take(i + 1) =~= cands@.take(i as int).push(s));
                assert forall|g: u32| crate::sorted::members(out@).contains(g) <==> cands@.take(
                    i + 1,
                ).contains(g) && second_values(self@, first).contains(g) by {
                    crate::sorted::lemma_push_contains(cands@.take(i as int), s, g);
                    crate::sorted::lemma_push_contains(before, s, g);
                    assert(crate::sorted::members(before).contains(g) <==> cands@.take(
                        i as int,
                    ).contains(g) && second_values(self@, first).contains(g));
                }
            }
            i += 1;
        }
        proof {
            assert(cands@.take(i as int) =~= cands@);
            let all = self.base_set().union(self.inserted());
            assert forall|s: u32| crate::sorted::members(out@).contains(s) == second_values(
                self@,
                first,
            ).contains(s) by {
                if second_values(self@, first).contains(s) {
                    let t = choose|t: u32| self@.contains((first, s, t));
                    assert(all.contains((first, s, t)));
                    assert(crate::sorted::members(cands@).contains(s));
                }
            }
            assert(crate::sorted::members(out@) =~= second_values(self@, first));
        }
        Cow::Owned(out)
    }

    /// How many third values stand under `(first, second)`.
    pub fn count_two(&self, first: u32, second: u32) -> (n: usize)
        requires
            self.wf(),
        ensures
            third_values(self@, first, second).finite(),
            n == third_values(self@, first, second).len(),
    {
        let leaf: Cow<'_, [u32]> = self.query_two(first, second);
        proof {
            assert(crate::sorted::members(leaf@) =~= leaf@.to_set());
            leaf@.unique_seq_to_set();
        }
        cow_len(&leaf)
    }

    /// How many triples stand under `first` in the base and the insertions.
    /// Deletions are not subtracted: an estimate, exact while none is recorded.
    pub fn count_one(&self, first: u32) -> (n: usize)
        requires
            self.wf(),
        ensures
            n == clamped(
                under(self.base_set(), first).len() + under(self.inserted(), first).len(),
            ),
    {
        let base: usize = self.base.count_one(first);
        proof {
            assert(under(self.base_set(), first) == self.base@.filter(|t: IdTriple| t.0 == first));
        }
        base.saturating_add(delta_len_under(&self.ins, first))
    }

    /// The `(second, third)` pairs under `first`, in order.
    pub fn query_one_pairs(&self, first: u32) -> (out: Vec<(u32, u32)>)
        requires
            self.wf(),
        ensures
            crate::hypertrie::csr::increasing2(out@),
            crate::hypertrie::csr::pair_set(out@) == pairs_under(self@, first),
    {
        let cands: Vec<u32> = self.second_candidates(first);
        let mut out: Vec<(u32, u32)> = Vec::new();
        let mut i: usize = 0;
        while i < cands.len()
            invariant
                i <= cands@.len(),
                self.wf(),
                crate::sorted::increasing(cands@),
                crate::hypertrie::csr::increasing2(out@),
                forall|k: int, l: int|
                    0 <= k < out@.len() && i <= l < cands@.len() ==> (#[trigger] out@[k]).0
                        < #[trigger] cands@[l],
                forall|p: (u32, u32)| #[trigger]
                    out@.contains(p) <==> cands@.take(i as int).contains(p.0) && self@.contains(
                        (first, p.0, p.1),
                    ),
            decreases cands@.len() - i,
        {
            let s: u32 = cands[i];
            let leaf: Cow<'_, [u32]> = self.query_two(first, s);
            let ts: &[u32] = cow_slice(&leaf);
            let ghost before = out@;
            let mut j: usize = 0;
            while j < ts.len()
                invariant
                    i < cands@.len(),
                    j <= ts@.len(),
                    s == cands@[i as int],
                    crate::sorted::increasing(cands@),
                    crate::sorted::increasing(ts@),
                    crate::hypertrie::csr::increasing2(out@),
                    out@.len() == before.len() + j,
                    forall|k: int| 0 <= k < before.len() ==> out@[k] == before[k],
                    forall|k: int| 0 <= k < j ==> #[trigger] out@[before.len() + k] == (s, ts@[k]),
                    forall|k: int, l: int|
                        0 <= k < before.len() && i <= l < cands@.len() ==> (#[trigger] before[k]).0
                            < #[trigger] cands@[l],
                decreases ts@.len() - j,
            {
                let ghost o1 = out@;
                out.push((s, ts[j]));
                proof {
                    assert forall|k: int| 0 <= k < o1.len() implies (o1[k].0 < s || (o1[k].0 == s
                        && o1[k].1 < ts@[j as int])) by {
                        if k < before.len() {
                            assert(before[k].0 < cands@[i as int]);
                        } else {
                            let m = k - before.len();
                            assert(out@[before.len() + m] == (s, ts@[m]));
                        }
                    }
                }
                j += 1;
            }
            proof {
                assert(cands@.take(i + 1) =~= cands@.take(i as int).push(s));
                assert forall|p: (u32, u32)| #[trigger] out@.contains(p) <==> cands@.take(
                    i + 1,
                ).contains(p.0) && self@.contains((first, p.0, p.1)) by {
                    crate::sorted::lemma_push_contains(cands@.take(i as int), s, p.0);
                    assert(before.contains(p) <==> cands@.take(i as int).contains(p.0)
                        && self@.contains((first, p.0, p.1)));
                    if out@.contains(p) {
                        let k = choose|k: int| 0 <= k < out@.len() && out@[k] == p;
                        if k < before.len() {
                            assert(before[k] == p);
                        } else {
                            let m = k - before.len();
                            assert(out@[before.len() + m] == (s, ts@[m]));
                            assert(crate::sorted::members(ts@).contains(ts@[m]));
                        }
                    }
                    if before.contains(p) {
                        let k = choose|k: int| 0 <= k < before.len() && before[k] == p;
                        assert(out@[k] == p);
                    }
                    if p.0 == s && self@.contains((first, s, p.1)) {
                        assert(third_values(self@, first, s).contains(p.1));
                        assert(ts@.contains(p.1));
                        let m = choose|m: int| 0 <= m < ts@.len() && ts@[m] == p.1;
                        assert(out@[before.len() + m] == p);
                    }
                }
                assert forall|k: int, l: int|
                    0 <= k < out@.len() && i + 1 <= l < cands@.len() implies (#[trigger] out@[k]).0
                    < #[trigger] cands@[l] by {
                    assert(cands@[i as int] < cands@[l]);
                    if k >= before.len() {
                        let m = k - before.len();
                        assert(out@[before.len() + m] == (s, ts@[m]));
                    } else {
                        assert(before[k].0 < cands@[l]);
                    }
                }
            }
            i += 1;
        }
        proof {
            assert(cands@.take(i as int) =~= cands@);
            let all = self.base_set().union(self.inserted());
            assert forall|p: (u32, u32)| #[trigger] out@.contains(p) <==> pairs_under(
                self@,
                first,
            ).contains(p) by {
                if self@.contains((first, p.0, p.1)) {
                    assert(all.contains((first, p.0, p.1)));
                    assert(crate::sorted::members(cands@).contains(p.0));
                }
            }
            assert(crate::hypertrie::csr::pair_set(out@) =~= pairs_under(self@, first));
        }
        out
    }

    /// All stored triples, in order.
    pub fn all_triples(&self) -> (r: Vec<IdTriple>)
        requires
            self.wf(),
        ensures
            crate::hypertrie::csr::increasing3(r@),
            crate::hypertrie::csr::triple_set(r@) == self@,
    {
        let base: Vec<IdTriple> = self.base.all_triples();
        proof {
            self.base.lemma_flat();
        }
        if self.delta_is_empty() {
            return base;
        }
        let mut out: Vec<IdTriple> = Vec::new();
        let mut i: usize = 0;
        while i < base.len()
            invariant
                i <= base@.len(),
                self.wf(),
                base@ == self.base.flat(),
                forall|t: IdTriple|
                    out@.contains(t) <==> base@.take(i as int).contains(t)
                        && !self.deleted().contains(t),
            decreases base@.len() - i,
        {
            let t: IdTriple = base[i];
            let gone: bool = leaf_has(&self.del, t.0, t.1, t.2);
            let ghost before = out@;
            if !gone {
                out.push(t);
            }
            proof {
                assert(gone == self.deleted().contains(t));
                assert(base@.take(i + 1) =~= base@.take(i as int).push(t));
                assert forall|x: IdTriple| out@.contains(x) <==> base@.take(i + 1).contains(x)
                    && !self.deleted().contains(x) by {
                    crate::hypertrie::csr::lemma_push3(base@.take(i as int), t, x);
                    crate::hypertrie::csr::lemma_push3(before, t, x);
                }
            }
            i += 1;
        }
        assert(base@.take(i as int) =~= base@);
        let keys: Vec<u64> = fx_keys(&self.ins);
        let mut j: usize = 0;
        while j < keys.len()
            invariant
                j <= keys@.len(),
                self.wf(),
                forall|k: u64| #[trigger] keys@.contains(k) <==> self.ins@.contains_key(k),
                forall|t: IdTriple|
                    out@.contains(t) <==> (self.base_set().contains(t) && !self.deleted().contains(t))
                        || delta_part(self.ins@, keys@.take(j as int)).contains(t),
            decreases keys@.len() - j,
        {
            let key: u64 = keys[j];
            let (f, s) = unpack_key(key);
            let ghost before = out@;
            proof {
                assert(keys@.contains(key));
            }
            match fx_get(&self.ins, key) {
                Some(leaf) => {
                    let mut k: usize = 0;
                    while k < leaf.len()
                        invariant
                            k <= leaf@.len(),
                            forall|t: IdTriple| #[trigger]
                                out@.contains(t) <==> before.contains(t) || (t.0 == f && t.1 == s
                                    && leaf@.take(k as int).contains(t.2)),
                        decreases leaf@.len() - k,
                    {
                        let v: u32 = leaf[k];
                        let ghost o1 = out@;
                        out.push((f, s, v));
                        proof {
                            assert(leaf@.take(k + 1) =~= leaf@.take(k as int).push(v));
                            assert forall|t: IdTriple| #[trigger]
                                out@.contains(t) <==> before.contains(t) || (t.0 == f && t.1 == s
                                    && leaf@.take(k + 1).contains(t.2)) by {
                                crate::hypertrie::csr::lemma_push3(o1, (f, s, v), t);
                                crate::sorted::lemma_push_contains(leaf@.take(k as int), v, t.2);
                            }
                        }
                        k += 1;
                    }
                    assert(leaf@.take(k as int) =~= leaf@);
                },
                None => {},
            }
            proof {
                assert(keys@.take(j + 1) =~= keys@.take(j as int).push(key));
                assert forall|t: IdTriple| out@.contains(t) <==> (self.base_set().contains(t)
                    && !self.deleted().contains(t)) || delta_part(
                    self.ins@,
                    keys@.take(j + 1),
                ).contains(t) by {
                    lemma_push_key(keys@.take(j as int), key, pair_key(t.0, t.1));
                    assert(pair_key(f, s) == key);
                }
            }
            j += 1;
        }
        proof {
            assert(keys@.take(j as int) =~= keys@);
            assert(crate::hypertrie::csr::triple_set(out@) =~= self@);
        }
        sort_dedup(out.as_slice())
    }

    pub fn len(&self) -> (n: usize)
        requires
            self.wf(),
        ensures
            n == self@.len(),
    {
        self.len
    }

    pub fn is_empty(&self) -> (r: bool)
        requires
            self.wf(),
        ensures
            r == (self@ == Set::<IdTriple>::empty()),
    {
        proof {
            if self@.len() == 0 {
                assert(self@ =~= Set::<IdTriple>::empty());
            }
        }
        self.len == 0
    }
}

/// Whether one of the keys has `f` in front.
spec fn has_first(ks: Seq<u64>, f: u32) -> bool {
    exists|j: int| 0 <= j < ks.len() && crate::fxmap::key_first(#[trigger] ks[j]) == f
}

proof fn lemma_has_first_push(ks: Seq<u64>, k: u64, f: u32)
    ensures
        has_first(ks.push(k), f) <==> has_first(ks, f) || crate::fxmap::key_first(k) == f,
{
    let ks2 = ks.push(k);
    assert(ks2[ks.len() as int] == k);
    if has_first(ks, f) {
        let j = choose|j: int| 0 <= j < ks.len() && crate::fxmap::key_first(#[trigger] ks[j]) == f;
        assert(ks2[j] == ks[j]);
    }
    if has_first(ks2, f) && crate::fxmap::key_first(k) != f {
        let j = choose|j: int| 0 <= j < ks2.len() && crate::fxmap::key_first(#[trigger] ks2[j]) == f;
        assert(ks[j] == ks2[j]);
    }
}

proof fn lemma_push_key(s: Seq<u64>, v: u64, x: u64)
    ensures
        s.push(v).contains(x) <==> s.contains(x) || x == v,
{
    if s.contains(x) {
        let k = choose|k: int| 0 <= k < s.len() && s[k] == x;
        assert(s.push(v)[k] == x);
    }
    assert(s.push(v)[s.len() as int] == v);
    if s.push(v).contains(x) && x != v {
        let k = choose|k: int| 0 <= k < s.push(v).len() && s.push(v)[k] == x;
        assert(s[k] == x);
    }
}

/// A delta without entries records nothing, and only such a delta.
proof fn lemma_delta_empty(m: Map<u64, Vec<u32>>)
    requires
        delta_ok(m),
    ensures
        (forall|k: u64| !m.contains_key(k)) <==> delta_set(m) == Set::<IdTriple>::empty(),
{
    if forall|k: u64| !m.contains_key(k) {
        assert(delta_set(m) =~= Set::<IdTriple>::empty());
    } else {
        let k = choose|k: u64| m.contains_key(k);
        let t = (crate::fxmap::key_first(k), crate::fxmap::key_second(k), m[k]@[0]);
        assert(m[k]@.contains(t.2));
        assert(delta_set(m).contains(t));
    }
}

/// The items behind a borrowed or owned list.
pub fn cow_slice<'a>(c: &'a Cow<'_, [u32]>) -> (r: &'a [u32])
    ensures
        r@ == c@,
{
    match c {
        Cow::Borrowed(b) => b,
        Cow::Owned(v) => v.as_slice(),
    }
}

pub fn cow_len(c: &Cow<'_, [u32]>) -> (n: usize)
    ensures
        n == c@.len(),
{
    cow_slice(c).len()
}

} // verus!
