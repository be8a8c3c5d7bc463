//! The triple store.

use crate::hypertrie::csr::{triple_set, IdTriple};
use crate::hypertrie::dictionary::{key_kind, key_value, keys_blob, term_key, with_key, Dictionary, TermKind, TermType};
use crate::hypertrie::export::{
    document_triples, parse_ntriples, serialize_term, term_text, triples_text, ParsedTerm, ParsedTriple,
    TermText, TripleText,
};
use crate::hypertrie::index::{clamped, cow_slice};
use crate::hypertrie::permutations::{
    answer, objects, objects_having, po_pairs, predicate_occurs, predicate_subjects, predicates, sp_pairs, subjects,
    subjects_having, Permutations, QueryResult, Term,
};
use crate::hypertrie::stats::CardEstimator;
use crate::hypertrie::turtle::{parse_turtle_str, turtle_triples};
use crate::sorted::intersect_sorted;
use crate::text::{ends_with_text, has_suffix};
use std::borrow::Cow;
use vstd::prelude::*;

verus! {

/// A dictionary and the triples over its identifiers.
pub struct TripleStore {
    pub dict: Dictionary,
    pub index: Permutations,
}

/// The logical sizes of the parts of a store, in bytes.
#[derive(Debug, Clone, Copy)]
pub struct MemoryReport {
    pub triples: usize,
    /// The three orders.
    pub permutations: usize,
    /// The terms that came after the snapshot.
    pub dictionary: usize,
    /// The subjects of each predicate.
    pub predicate_subjects: usize,
    pub total: usize,
}

/// The key of a term.
pub open spec fn text_key(t: TermText) -> Seq<char> {
    term_key(t.value, t.typ)
}

/// The keys of the three terms of each triple, added in order.
pub open spec fn keys_after(keys: Seq<Seq<char>>, ts: Seq<TripleText>) -> Seq<Seq<char>>
    decreases ts.len(),
{
    if ts.len() == 0 {
        keys
    } else {
        let t = ts.last();
        with_key(
            with_key(
                with_key(keys_after(keys, ts.drop_last()), text_key(t.subject)),
                text_key(t.predicate),
            ),
            text_key(t.object),
        )
    }
}

/// The identifiers of a triple: the positions of its keys.
pub open spec fn id_triple(keys: Seq<Seq<char>>, t: TripleText) -> IdTriple {
    (
        keys.index_of(text_key(t.subject)) as u32,
        keys.index_of(text_key(t.predicate)) as u32,
        keys.index_of(text_key(t.object)) as u32,
    )
}

/// The identifiers of a list of triples.
pub open spec fn id_triples(keys: Seq<Seq<char>>, ts: Seq<TripleText>) -> Seq<IdTriple> {
    ts.map_values(|t: TripleText| id_triple(keys, t))
}

/// A key added stays where it is when more keys come.
proof fn lemma_with_key(keys: Seq<Seq<char>>, key: Seq<char>)
    requires
        keys.no_duplicates(),
    ensures
        with_key(keys, key).no_duplicates(),
        with_key(keys, key).contains(key),
        keys.len() <= with_key(keys, key).len() <= keys.len() + 1,
        forall|i: int| 0 <= i < keys.len() ==> #[trigger] with_key(keys, key)[i] == keys[i],
        forall|k: Seq<char>| #[trigger]
            keys.contains(k) ==> with_key(keys, key).contains(k) && with_key(keys, key).index_of(k)
                == keys.index_of(k),
{
    let out = with_key(keys, key);
    if !keys.contains(key) {
        assert(out[keys.len() as int] == key);
        assert forall|a: int, b: int| 0 <= a < out.len() && 0 <= b < out.len() && a
            != b implies out[a] != out[b] by {
            if a == keys.len() {
                assert(keys.contains(keys[b]));
            }
            if b == keys.len() {
                assert(keys.contains(keys[a]));
            }
        }
    }
    assert forall|k: Seq<char>| #[trigger] keys.contains(k) implies out.contains(k) && out.index_of(k)
        == keys.index_of(k) by {
        let i = keys.index_of(k);
        assert(out[i] == k);
        let j = out.index_of(k);
        assert(out[j] == k);
        assert(i == j);
    }
}

proof fn lemma_index_of(keys: Seq<Seq<char>>, id: int)
    requires
        keys.no_duplicates(),
        0 <= id < keys.len(),
    ensures
        keys.contains(keys[id]),
        keys.index_of(keys[id]) == id,
{
    assert(keys.contains(keys[id]));
    let i = keys.index_of(keys[id]);
    assert(keys[i] == keys[id]);
}

/// Keys already known keep their identifiers.
pub proof fn lemma_keys_after(keys: Seq<Seq<char>>, ts: Seq<TripleText>)
    requires
        keys.no_duplicates(),
    ensures
        keys_after(keys, ts).no_duplicates(),
        keys.len() <= keys_after(keys, ts).len() <= keys.len() + 3 * ts.len(),
        forall|k: Seq<char>| #[trigger]
            keys.contains(k) ==> keys_after(keys, ts).contains(k) && keys_after(keys, ts).index_of(k)
                == keys.index_of(k),
        forall|i: int|
            0 <= i < ts.len() ==> keys_after(keys, ts).contains(text_key((#[trigger] ts[i]).subject))
                && keys_after(keys, ts).contains(text_key(ts[i].predicate)) && keys_after(
                keys,
                ts,
            ).contains(text_key(ts[i].object)),
    decreases ts.len(),
{
    if ts.len() > 0 {
        let t = ts.last();
        let k0 = keys_after(keys, ts.drop_last());
        lemma_keys_after(keys, ts.drop_last());
        let k1 = with_key(k0, text_key(t.subject));
        let k2 = with_key(k1, text_key(t.predicate));
        let k3 = with_key(k2, text_key(t.object));
        lemma_with_key(k0, text_key(t.subject));
        lemma_with_key(k1, text_key(t.predicate));
        lemma_with_key(k2, text_key(t.object));
        assert(k3 == keys_after(keys, ts));
        assert forall|k: Seq<char>| #[trigger] keys.contains(k) implies k3.contains(k) && k3.index_of(k)
            == keys.index_of(k) by {
            assert(k0.contains(k));
            assert(k1.contains(k));
            assert(k2.contains(k));
        }
        assert forall|i: int| 0 <= i < ts.len() implies k3.contains(text_key((#[trigger] ts[i]).subject))
            && k3.contains(text_key(ts[i].predicate)) && k3.contains(text_key(ts[i].object)) by {
            if i < ts.len() - 1 {
                let u = ts.drop_last()[i];
                assert(u == ts[i]);
                assert(k0.contains(text_key(u.subject)));
                assert(k0.contains(text_key(u.predicate)));
                assert(k0.contains(text_key(u.object)));
                assert(k1.contains(text_key(u.subject)));
                assert(k1.contains(text_key(u.predicate)));
                assert(k1.contains(text_key(u.object)));
                assert(k2.contains(text_key(u.subject)));
                assert(k2.contains(text_key(u.predicate)));
                assert(k2.contains(text_key(u.object)));
            } else {
                assert(k1.contains(text_key(t.subject)));
                assert(k2.contains(text_key(t.subject)));
                assert(k2.contains(text_key(t.predicate)));
            }
        }
    }
}

/// More triples do not have fewer keys.
proof fn lemma_keys_grow(keys: Seq<Seq<char>>, ts: Seq<TripleText>, i: int)
    requires
        keys.no_duplicates(),
        0 <= i <= ts.len(),
    ensures
        keys_after(keys, ts.take(i)).len() <= keys_after(keys, ts).len(),
    decreases ts.len() - i,
{
    if i < ts.len() {
        lemma_keys_grow(keys, ts, i + 1);
        let t = ts[i];
        let k0 = keys_after(keys, ts.take(i));
        assert(ts.take(i + 1).drop_last() =~= ts.take(i));
        lemma_keys_after(keys, ts.take(i));
        let k1 = with_key(k0, text_key(t.subject));
        let k2 = with_key(k1, text_key(t.predicate));
        lemma_with_key(k0, text_key(t.subject));
        lemma_with_key(k1, text_key(t.predicate));
        lemma_with_key(k2, text_key(t.object));
    } else {
        assert(ts.take(i) =~= ts);
    }
}

/// The triples of a document, by the name of its file.
pub open spec fn rdf_triples(name: Seq<char>, text: Seq<char>) -> Result<Seq<TripleText>, Seq<char>> {
    if has_suffix(name, ".ttl"@) {
        turtle_triples(text)
    } else {
        Ok(document_triples(text))
    }
}

/// Whether a store holds triples after they were loaded. If there are too many of
/// them, or of their terms, its contents stay.
pub open spec fn loaded(
    before: TripleStore,
    ts: Seq<TripleText>,
    after: TripleStore,
    count: Option<usize>,
) -> bool {
    let fits = ts.len() <= u32::MAX && keys_after(before.dict.keys(), ts).len() <= u32::MAX;
    &&& after.wf()
    &&& (count is Some) == fits
    &&& match count {
        Some(n) => n == ts.len() && after.dict.keys() == keys_after(before.dict.keys(), ts)
            && after.triples() == triple_set(id_triples(after.dict.keys(), ts)),
        None => after.index == before.index && before.dict.keys().is_prefix_of(after.dict.keys()),
    }
}

impl TripleStore {
    /// The stored triples.
    pub open spec fn triples(&self) -> Set<IdTriple> {
        self.index.triples()
    }

    pub open spec fn wf(&self) -> bool {
        self.dict.wf() && self.index.wf()
    }

    pub fn new() -> (r: TripleStore)
        ensures
            r.wf(),
            r.triples() == Set::<IdTriple>::empty(),
            r.dict.keys() == Seq::<Seq<char>>::empty(),
    {
        TripleStore { dict: Dictionary::new(), index: Permutations::new() }
    }

    /// Gives every term of the triples an identifier. Nothing if the identifiers
    /// run out; some of the terms may have got one then.
    fn map_triples(&mut self, triples: &[ParsedTriple]) -> (r: Option<Vec<IdTriple>>)
        requires
            old(self).wf(),
        ensures
            final(self).wf(),
            final(self).index == old(self).index,
            match r {
                Some(ids) => final(self).dict.keys() == keys_after(
                    old(self).dict.keys(),
                    triples_text(triples@),
                ) && ids@ == id_triples(final(self).dict.keys(), triples_text(triples@)),
                None => keys_after(old(self).dict.keys(), triples_text(triples@)).len() > u32::MAX
                    && old(self).dict.keys().is_prefix_of(final(self).dict.keys()),
            },
    {
        let ghost k0 = self.dict.keys();
        let ghost ts = triples_text(triples@);
        let mut ids: Vec<IdTriple> = Vec::new();
        let mut i: usize = 0;
        proof {
            self.dict.lemma_wf();
            assert(ts.take(0) =~= Seq::<TripleText>::empty());
            assert(ids@ =~= id_triples(k0, ts.take(0)));
        }
        while i < triples.len()
            invariant
                i <= triples@.len(),
                self.wf(),
                self.index == old(self).index,
                ts == triples_text(triples@),
                k0.no_duplicates(),
                k0 == old(self).dict.keys(),
                k0.is_prefix_of(self.dict.keys()),
                self.dict.keys() == keys_after(k0, ts.take(i as int)),
                ids@ == id_triples(self.dict.keys(), ts.take(i as int)),
            decreases triples@.len() - i,
        {
            let t: &ParsedTriple = &triples[i];
            let ghost before = self.dict.keys();
            let ghost done = ts.take(i as int);
            proof {
                lemma_keys_after(k0, done);
                self.dict.lemma_wf();
                assert(ts[i as int] == t@);
                assert(ts.take(i + 1).drop_last() =~= done);
                lemma_with_key(before, text_key(t.subject@));
            }
            let ghost b1 = with_key(before, text_key(t.subject@));
            let ghost b2 = with_key(b1, text_key(t.predicate@));
            let ghost b3 = with_key(b2, text_key(t.object@));
            proof {
                lemma_with_key(b1, text_key(t.predicate@));
                lemma_with_key(b2, text_key(t.object@));
            }
            proof {
                lemma_keys_grow(k0, ts, i + 1);
                assert(keys_after(k0, ts.take(i + 1)) == b3);
            }
            let sid: u32 = match self.dict.try_insert(t.subject.value.as_str(), &t.subject.typ) {
                Some(id) => id,
                None => {
                    return None;
                },
            };
            let pid: u32 = match self.dict.try_insert(t.predicate.value.as_str(), &t.predicate.typ) {
                Some(id) => id,
                None => {
                    return None;
                },
            };
            let oid: u32 = match self.dict.try_insert(t.object.value.as_str(), &t.object.typ) {
                Some(id) => id,
                None => {
                    return None;
                },
            };
            let ghost ids0 = ids@;
            ids.push((sid, pid, oid));
            proof {
                assert(self.dict.keys() == b3);
                lemma_index_of(b1, sid as int);
                lemma_index_of(b2, pid as int);
                lemma_index_of(b3, oid as int);
                assert(b3.index_of(text_key(t.subject@)) == sid) by {
                    assert(b1.contains(text_key(t.subject@)));
                    assert(b2.contains(text_key(t.subject@)));
                }
                assert(b3.index_of(text_key(t.predicate@)) == pid) by {
                    assert(b2.contains(text_key(t.predicate@)));
                }
                assert forall|j: int| 0 <= j < i implies #[trigger] id_triples(b3, ts.take(i + 1))[j]
                    == ids0[j] by {
                    let u = done[j];
                    assert(u == ts.take(i + 1)[j]);
                    assert(before.contains(text_key(u.subject)));
                    assert(before.contains(text_key(u.predicate)));
                    assert(before.contains(text_key(u.object)));
                    assert(b1.contains(text_key(u.subject)));
                    assert(b1.contains(text_key(u.predicate)));
                    assert(b1.contains(text_key(u.object)));
                    assert(b2.contains(text_key(u.subject)));
                    assert(b2.contains(text_key(u.predicate)));
                    assert(b2.contains(text_key(u.object)));
                    assert(ids0[j] == id_triple(before, u));
                }
                assert(ids@ =~= id_triples(b3, ts.take(i + 1)));
            }
            i += 1;
        }
        assert(ts.take(i as int) =~= ts);
        Some(ids)
    }

    /// Loads parsed triples: their terms get identifiers, and they become the
    /// contents of the store.
    pub fn ingest(&mut self, triples: &[ParsedTriple])
        requires
            old(self).wf(),
            keys_after(old(self).dict.keys(), triples_text(triples@)).len() <= u32::MAX,
            triples@.len() <= u32::MAX,
        ensures
            final(self).wf(),
            final(self).dict.keys() == keys_after(old(self).dict.keys(), triples_text(triples@)),
            final(self).triples() == triple_set(
                id_triples(final(self).dict.keys(), triples_text(triples@)),
            ),
    {
        match self.map_triples(triples) {
            Some(ids) => {
                self.build_indexes(ids);
            },
            None => {},
        }
    }

    /// Like [`ingest`](Self::ingest), and takes the triples by value.
    pub fn ingest_owned(&mut self, triples: Vec<ParsedTriple>)
        requires
            old(self).wf(),
            keys_after(old(self).dict.keys(), triples_text(triples@)).len() <= u32::MAX,
            triples@.len() <= u32::MAX,
        ensures
            final(self).wf(),
            final(self).dict.keys() == keys_after(old(self).dict.keys(), triples_text(triples@)),
            final(self).triples() == triple_set(
                id_triples(final(self).dict.keys(), triples_text(triples@)),
            ),
    {
        match self.map_owned(triples) {
            Some(ids) => {
                self.build_indexes(ids);
            },
            None => {},
        }
    }

    /// Like `map_triples`, and lets go of the triples: their text is freed before
    /// the indexes are built.
    fn map_owned(&mut self, triples: Vec<ParsedTriple>) -> (r: Option<Vec<IdTriple>>)
        requires
            old(self).wf(),
        ensures
            final(self).wf(),
            final(self).index == old(self).index,
            match r {
                Some(ids) => final(self).dict.keys() == keys_after(
                    old(self).dict.keys(),
                    triples_text(triples@),
                ) && ids@ == id_triples(final(self).dict.keys(), triples_text(triples@)),
                None => keys_after(old(self).dict.keys(), triples_text(triples@)).len() > u32::MAX
                    && old(self).dict.keys().is_prefix_of(final(self).dict.keys()),
            },
    {
        self.map_triples(triples.as_slice())
    }

    /// Loads parsed triples if there are identifiers for all their terms and there
    /// is room for all of them; says how many there are. Otherwise the contents
    /// stay as they are.
    fn load(&mut self, triples: Vec<ParsedTriple>) -> (r: Option<usize>)
        requires
            old(self).wf(),
        ensures
            loaded(*old(self), triples_text(triples@), *final(self), r),
    {
        let n: usize = triples.len();
        assert(triples_text(triples@).len() == n);
        if n > 0xFFFF_FFFF {
            return None;
        }
        match self.map_owned(triples) {
            Some(ids) => {
                proof {
                    self.dict.lemma_wf();
                }
                self.build_indexes(ids);
                Some(n)
            },
            None => None,
        }
    }

    /// Loads an N-Triples document; says how many triples it holds.
    pub fn ingest_ntriples_file(&mut self, text: &str) -> (r: Option<usize>)
        requires
            old(self).wf(),
        ensures
            loaded(*old(self), document_triples(text@), *final(self), r),
    {
        let triples: Vec<ParsedTriple> = parse_ntriples(text);
        self.load(triples)
    }

    /// Loads a document by the name of its file: Turtle if it ends in `.ttl`,
    /// N-Triples otherwise. Says how many triples it holds.
    pub fn ingest_rdf_file(&mut self, name: &str, text: &str) -> (r: Result<Option<usize>, String>)
        requires
            old(self).wf(),
        ensures
            match r {
                Ok(n) => rdf_triples(name@, text@) matches Ok(ts) && loaded(
                    *old(self),
                    ts,
                    *final(self),
                    n,
                ),
                Err(e) => *final(self) == *old(self) && rdf_triples(name@, text@) == Err::<
                    Seq<TripleText>,
                    Seq<char>,
                >(e@),
            },
    {
        if ends_with_text(name, ".ttl") {
            match parse_turtle_str(text) {
                Ok(triples) => Ok(self.load(triples)),
                Err(e) => Err(e),
            }
        } else {
            Ok(self.ingest_ntriples_file(text))
        }
    }

    /// Loads string triples, every term as an IRI.
    pub fn ingest_str_triples(&mut self, triples: &[(&str, &str, &str)])
        requires
            old(self).wf(),
            keys_after(old(self).dict.keys(), iri_triples(triples@)).len() <= u32::MAX,
            triples@.len() <= u32::MAX,
        ensures
            final(self).wf(),
            final(self).dict.keys() == keys_after(old(self).dict.keys(), iri_triples(triples@)),
            final(self).triples() == triple_set(
                id_triples(final(self).dict.keys(), iri_triples(triples@)),
            ),
    {
        let mut parsed: Vec<ParsedTriple> = Vec::new();
        let mut i: usize = 0;
        while i < triples.len()
            invariant
                i <= triples@.len(),
                parsed@.len() == i,
                forall|k: int|
                    0 <= k < i ==> (#[trigger] parsed@[k])@ == iri_triple(
                        triples@[k].0@,
                        triples@[k].1@,
                        triples@[k].2@,
                    ),
            decreases triples@.len() - i,
        {
            let (s, p, o) = triples[i];
            parsed.push(
                ParsedTriple {
                    subject: ParsedTerm { value: s.to_owned(), typ: TermType::Iri },
                    predicate: ParsedTerm { value: p.to_owned(), typ: TermType::Iri },
                    object: ParsedTerm { value: o.to_owned(), typ: TermType::Iri },
                },
            );
            i += 1;
        }
        assert(triples_text(parsed@) =~= iri_triples(triples@));
        self.ingest(parsed.as_slice());
    }

    /// Loads triples of identifiers.
    pub fn ingest_id_triples(&mut self, triples: Vec<IdTriple>)
        requires
            old(self).wf(),
            triples@.len() <= u32::MAX,
        ensures
            final(self).wf(),
            final(self).dict == old(self).dict,
            final(self).triples() == triple_set(triples@),
    {
        self.build_indexes(triples);
    }

    /// Rebuilds all indexes from a triple list.
    fn build_indexes(&mut self, triples: Vec<IdTriple>)
        requires
            old(self).wf(),
            triples@.len() <= u32::MAX,
        ensures
            final(self).wf(),
            final(self).dict == old(self).dict,
            final(self).triples() == triple_set(triples@),
    {
        self.index = Permutations::build(triples.as_slice());
    }

    /// Adds a single triple, without a rebuild.
    pub fn insert_triple(&mut self, s: u32, p: u32, o: u32)
        requires
            old(self).wf(),
            old(self).triples().len() < u32::MAX,
        ensures
            final(self).wf(),
            final(self).dict == old(self).dict,
            final(self).triples() == old(self).triples().insert((s, p, o)),
    {
        let _new: bool = self.index.add_one(s, p, o);
    }

    /// Removes a single triple, without a rebuild.
    pub fn delete_triple(&mut self, s: u32, p: u32, o: u32)
        requires
            old(self).wf(),
        ensures
            final(self).wf(),
            final(self).dict == old(self).dict,
            final(self).triples() == old(self).triples().remove((s, p, o)),
    {
        let _existed: bool = self.index.remove_one(s, p, o);
    }

    /// Applies several deletions, then several insertions.
    pub fn apply_updates(&mut self, inserts: &[IdTriple], deletes: &[IdTriple])
        requires
            old(self).wf(),
            old(self).triples().len() + inserts@.len() <= u32::MAX,
        ensures
            final(self).wf(),
            final(self).dict == old(self).dict,
            final(self).triples() == updated_triples(old(self).triples(), inserts@, deletes@),
    {
        let ghost set0 = self.triples();
        let mut i: usize = 0;
        assert(set0.difference(triple_set(deletes@.take(0))) =~= set0);
        while i < deletes.len()
            invariant
                i <= deletes@.len(),
                self.wf(),
                self.dict == old(self).dict,
                self.triples() == set0.difference(triple_set(deletes@.take(i as int))),
            decreases deletes@.len() - i,
        {
            let (s, p, o) = deletes[i];
            self.delete_triple(s, p, o);
            proof {
                let d0 = deletes@.take(i as int);
                let d1 = deletes@.take(i + 1);
                assert(d1 =~= d0.push((s, p, o)));
                assert forall|x: IdTriple| self.triples().contains(x) == set0.difference(
                    triple_set(d1),
                ).contains(x) by {
                    crate::hypertrie::csr::lemma_push3(d0, (s, p, o), x);
                }
                assert(self.triples() =~= set0.difference(triple_set(d1)));
            }
            i += 1;
        }
        let ghost set1 = self.triples();
        proof {
            assert(deletes@.take(i as int) =~= deletes@);
            self.index.lemma_wf();
            old(self).index.lemma_wf();
            vstd::set_lib::lemma_len_subset(set1, set0);
            assert(set1.union(triple_set(inserts@.take(0))) =~= set1);
        }
        let mut j: usize = 0;
        while j < inserts.len()
            invariant
                j <= inserts@.len(),
                self.wf(),
                self.dict == old(self).dict,
                set1.len() + inserts@.len() <= u32::MAX,
                self.triples() == set1.union(triple_set(inserts@.take(j as int))),
                self.triples().len() <= set1.len() + j,
            decreases inserts@.len() - j,
        {
            let (s, p, o) = inserts[j];
            let ghost before = self.triples();
            proof {
                self.index.lemma_wf();
            }
            self.insert_triple(s, p, o);
            proof {
                let d0 = inserts@.take(j as int);
                let d1 = inserts@.take(j + 1);
                assert(d1 =~= d0.push((s, p, o)));
                assert forall|x: IdTriple| self.triples().contains(x) == set1.union(
                    triple_set(d1),
                ).contains(x) by {
                    crate::hypertrie::csr::lemma_push3(d0, (s, p, o), x);
                }
                assert(self.triples() =~= set1.union(triple_set(d1)));
            }
            j += 1;
        }
        assert(inserts@.take(j as int) =~= inserts@);
    }

    /// The objects of `(s, p)`, in order.
    pub fn objects_of(&self, s: u32, p: u32) -> (r: Cow<'_, [u32]>)
        requires
            self.wf(),
        ensures
            r@ == crate::sorted::in_order(objects(self.triples(), s, p)),
            crate::sorted::increasing(r@),
            crate::sorted::members(r@) == objects(self.triples(), s, p),
    {
        self.index.objects_of(s, p)
    }

    /// The subjects of `(p, o)`, in order.
    pub fn subjects_of(&self, p: u32, o: u32) -> (r: Cow<'_, [u32]>)
        requires
            self.wf(),
        ensures
            r@ == crate::sorted::in_order(subjects(self.triples(), p, o)),
            crate::sorted::increasing(r@),
            crate::sorted::members(r@) == subjects(self.triples(), p, o),
    {
        self.index.subjects_of(p, o)
    }

    /// The subjects that have predicate `p`, in order.
    pub fn subjects_with_predicate(&self, p: u32) -> (r: &[u32])
        requires
            self.wf(),
        ensures
            r@ == crate::sorted::in_order(subjects_having(self.triples(), p)),
            crate::sorted::increasing(r@),
            crate::sorted::members(r@) == subjects_having(self.triples(), p),
    {
        self.index.subjects_with_predicate(p)
    }

    /// The objects that predicate `p` leads to, in order.
    pub fn objects_with_predicate(&self, p: u32) -> (r: Cow<'_, [u32]>)
        requires
            self.wf(),
        ensures
            r@ == crate::sorted::in_order(objects_having(self.triples(), p)),
            crate::sorted::increasing(r@),
            crate::sorted::members(r@) == objects_having(self.triples(), p),
    {
        self.index.objects_with_predicate(p)
    }

    /// Whether predicate `p` occurs.
    pub fn has_predicate(&self, p: u32) -> (r: bool)
        requires
            self.wf(),
        ensures
            r == predicate_occurs(self.triples(), p),
    {
        self.index.has_predicate(p)
    }

    /// The `(p, o)` pairs of subject `s`, in order.
    pub fn po_pairs_of(&self, s: u32) -> (r: Vec<(u32, u32)>)
        requires
            self.wf(),
        ensures
            r@ == crate::hypertrie::csr::pairs_in_order(po_pairs(self.triples(), s)),
            crate::hypertrie::csr::pair_set(r@) == po_pairs(self.triples(), s),
    {
        self.index.po_pairs_of(s)
    }

    /// The `(s, p)` pairs of object `o`, in order.
    pub fn sp_pairs_of(&self, o: u32) -> (r: Vec<(u32, u32)>)
        requires
            self.wf(),
        ensures
            r@ == crate::hypertrie::csr::pairs_in_order(sp_pairs(self.triples(), o)),
            crate::hypertrie::csr::pair_set(r@) == sp_pairs(self.triples(), o),
    {
        self.index.sp_pairs_of(o)
    }

    /// The listed subjects, in order: start candidates for paths.
    pub fn distinct_subjects(&self) -> (r: Vec<u32>)
        requires
            self.wf(),
        ensures
            r@ == crate::sorted::in_order(self.index.subject_keys()),
            crate::sorted::increasing(r@),
            crate::sorted::members(r@) == self.index.subject_keys(),
    {
        self.index.distinct_subjects()
    }

    /// The listed objects, in order.
    pub fn distinct_objects(&self) -> (r: Vec<u32>)
        requires
            self.wf(),
        ensures
            r@ == crate::sorted::in_order(self.index.object_keys()),
            crate::sorted::increasing(r@),
            crate::sorted::members(r@) == self.index.object_keys(),
    {
        self.index.distinct_objects()
    }

    /// Answers a query from the order that has its known positions in front.
    pub fn query(&self, s: Term, p: Term, o: Term) -> (r: QueryResult<'_>)
        requires
            self.wf(),
        ensures
            r@ == answer(self.triples(), s, p, o),
    {
        self.index.query(s, p, o)
    }

    pub fn triple_count(&self) -> (n: usize)
        requires
            self.wf(),
        ensures
            n == self.triples().len(),
            n <= u32::MAX,
    {
        self.index.len()
    }

    /// The logical sizes of the parts of the store.
    pub fn memory_report(&self) -> (r: MemoryReport)
        requires
            self.wf(),
        ensures
            r.triples == self.triples().len(),
            r.permutations == clamped(self.index.heap_size()),
            r.dictionary == clamped(
                keys_blob(self.dict.own_keys()).len() + 8 * self.dict.own_keys().len(),
            ),
            r.predicate_subjects == clamped(4 * predicate_subjects(self.triples()).len()),
            r.total == clamped(
                self.index.heap_size() + keys_blob(self.dict.own_keys()).len() + 8
                    * self.dict.own_keys().len() + 4 * predicate_subjects(self.triples()).len(),
            ),
    {
        let permutations: usize = self.index.heap_bytes();
        let dictionary: usize = self.dict.approx_bytes();
        let subjects: usize = self.index.subject_bytes();
        MemoryReport {
            triples: self.triple_count(),
            permutations,
            dictionary,
            predicate_subjects: subjects,
            total: permutations.saturating_add(dictionary).saturating_add(subjects),
        }
    }

    /// Folds the deltas of all three orders into their bases.
    pub fn compact_all(&mut self)
        requires
            old(self).wf(),
        ensures
            final(self).wf(),
            final(self).index.folded(),
            final(self).dict == old(self).dict,
            final(self).triples() == old(self).triples(),
    {
        self.index.compact_all();
    }

    /// The common objects of `(s1, p1)` and `(s2, p2)`, in order.
    pub fn intersect_objects(&self, s1: u32, p1: u32, s2: u32, p2: u32) -> (r: Vec<u32>)
        requires
            self.wf(),
        ensures
            r@ == crate::sorted::in_order(
                objects(self.triples(), s1, p1).intersect(objects(self.triples(), s2, p2)),
            ),
            crate::sorted::members(r@) == objects(self.triples(), s1, p1).intersect(
                objects(self.triples(), s2, p2),
            ),
    {
        let a: Cow<'_, [u32]> = self.objects_of(s1, p1);
        let b: Cow<'_, [u32]> = self.objects_of(s2, p2);
        let r: Vec<u32> = intersect_sorted(cow_slice(&a), cow_slice(&b));
        proof {
            crate::sorted::lemma_in_order(r@);
        }
        r
    }

    /// Chain join: the pairs `(x, y)` with `(x, p1, y)` and `(y, p2, fixed_o)`,
    /// by `y`, then by `x`.
    pub fn join_chain(&self, p1: u32, p2: u32, fixed_o: u32) -> (result: Vec<(u32, u32)>)
        requires
            self.wf(),
        ensures
            forall|i: int, j: int|
                #![trigger result@[i], result@[j]]
                0 <= i < j < result@.len() ==> result@[i].1 < result@[j].1 || (result@[i].1
                    == result@[j].1 && result@[i].0 < result@[j].0),
            forall|x: u32, y: u32| #[trigger]
                result@.contains((x, y)) <==> self.triples().contains((x, p1, y))
                    && self.triples().contains((y, p2, fixed_o)),
    {
        let ys: Cow<'_, [u32]> = self.subjects_of(p2, fixed_o);
        let ys: &[u32] = cow_slice(&ys);
        let mut result: Vec<(u32, u32)> = Vec::new();
        let ghost set = self.triples();
        let mut i: usize = 0;
        while i < ys.len()
            invariant
                i <= ys@.len(),
                self.wf(),
                set == self.triples(),
                crate::sorted::increasing(ys@),
                crate::sorted::members(ys@) == subjects(set, p2, fixed_o),
                chain_sorted(result@),
                forall|k: int, l: int|
                    0 <= k < result@.len() && i <= l < ys@.len() ==> (#[trigger] result@[k]).1
                        < #[trigger] ys@[l],
                forall|x: u32, y: u32| #[trigger]
                    result@.contains((x, y)) <==> ys@.take(i as int).contains(y) && set.contains(
                        (x, p1, y),
                    ),
            decreases ys@.len() - i,
        {
            let y: u32 = ys[i];
            let xs: Cow<'_, [u32]> = self.subjects_of(p1, y);
            let xs: &[u32] = cow_slice(&xs);
            let ghost before = result@;
            let mut j: usize = 0;
            while j < xs.len()
                invariant
                    i < ys@.len(),
                    j <= xs@.len(),
                    y == ys@[i as int],
                    crate::sorted::increasing(xs@),
                    chain_sorted(result@),
                    result@.len() == before.len() + j,
                    forall|k: int| 0 <= k < before.len() ==> result@[k] == before[k],
                    forall|k: int| 0 <= k < j ==> #[trigger] result@[before.len() + k] == (xs@[k], y),
                    forall|k: int, l: int|
                        0 <= k < before.len() && i <= l < ys@.len() ==> (#[trigger] before[k]).1
                            < #[trigger] ys@[l],
                decreases xs@.len() - j,
            {
                let ghost r1 = result@;
                result.push((xs[j], y));
                proof {
                    assert forall|k: int| 0 <= k < r1.len() implies (r1[k].1 < y || (r1[k].1 == y
                        && r1[k].0 < xs@[j as int])) by {
                        if k < before.len() {
                            assert(before[k].1 < ys@[i as int]);
                        } else {
                            let m = k - before.len();
                            assert(result@[before.len() + m] == (xs@[m], y));
                        }
                    }
                }
                j += 1;
            }
            proof {
                assert(ys@.take(i + 1) =~= ys@.take(i as int).push(y));
                assert forall|a: u32, b: u32| #[trigger] result@.contains((a, b)) <==> ys@.take(
                    i + 1,
                ).contains(b) && set.contains((a, p1, b)) by {
                    crate::sorted::lemma_push_contains(ys@.take(i as int), y, b);
                    assert(before.contains((a, b)) <==> ys@.take(i as int).contains(b)
                        && set.contains((a, p1, b)));
                    if result@.contains((a, b)) {
                        let k = choose|k: int| 0 <= k < result@.len() && result@[k] == (a, b);
                        if k < before.len() {
                            assert(before[k] == (a, b));
                        } else {
                            let m = k - before.len();
                            assert(result@[before.len() + m] == (xs@[m], y));
                            assert(crate::sorted::members(xs@).contains(xs@[m]));
                        }
                    }
                    if before.contains((a, b)) {
                        let k = choose|k: int| 0 <= k < before.len() && before[k] == (a, b);
                        assert(result@[k] == (a, b));
                    }
                    if b == y && set.contains((a, p1, y)) {
                        assert(subjects(set, p1, y).contains(a));
                        assert(crate::sorted::members(xs@).contains(a));
                        let m = choose|m: int| 0 <= m < xs@.len() && xs@[m] == a;
                        assert(result@[before.len() + m] == (a, b));
                    }
                }
                assert forall|k: int, l: int|
                    0 <= k < result@.len() && i + 1 <= l < ys@.len() implies (#[trigger] result@[k]).1
                    < #[trigger] ys@[l] by {
                    assert(ys@[i as int] < ys@[l]);
                    if k >= before.len() {
                        let m = k - before.len();
                        assert(result@[before.len() + m] == (xs@[m], y));
                    } else {
                        assert(before[k].1 < ys@[l]);
                    }
                }
            }
            i += 1;
        }
        proof {
            assert(ys@.take(i as int) =~= ys@);
            assert forall|x: u32, y: u32| #[trigger] result@.contains((x, y)) <==> set.contains(
                (x, p1, y),
            ) && set.contains((y, p2, fixed_o)) by {
                assert(crate::sorted::members(ys@).contains(y) == subjects(set, p2, fixed_o).contains(y));
            }
        }
        result
    }

    /// The N-Triples form of an identifier; an empty IRI if it is unknown.
    fn serialize_id(&self, id: u32) -> (r: String)
        requires
            self.wf(),
        ensures
            r@ == id_text(self.dict.keys(), id),
    {
        match (self.dict.resolve(id), self.dict.resolve_type(id)) {
            (Some(value), Some(typ)) => serialize_term(value.as_str(), &typ),
            _ => {
                let none: String = String::new();
                let r: String = serialize_term(none.as_str(), &TermType::Iri);
                assert(none@ =~= Seq::<char>::empty());
                r
            },
        }
    }

    /// Writes the whole store as an N-Triples document, in the order of the
    /// subjects.
    pub fn dump_ntriples(&self) -> (out: String)
        requires
            self.wf(),
        ensures
            out@ == dumped(
                self.dict.keys(),
                crate::hypertrie::csr::triples_in_order(self.triples()),
            ),
    {
        let ts: Vec<IdTriple> = self.index.all_triples();
        let ghost keys = self.dict.keys();
        let mut out: String = String::new();
        let mut i: usize = 0;
        assert(ts@.take(0) =~= Seq::<IdTriple>::empty());
        while i < ts.len()
            invariant
                i <= ts@.len(),
                self.wf(),
                keys == self.dict.keys(),
                out@ == dumped(keys, ts@.take(i as int)),
            decreases ts@.len() - i,
        {
            let (s, p, o) = ts[i];
            let ghost before = out@;
            let a: String = self.serialize_id(s);
            let b: String = self.serialize_id(p);
            let c: String = self.serialize_id(o);
            out.push_str(a.as_str());
            out.push(' ');
            out.push_str(b.as_str());
            out.push(' ');
            out.push_str(c.as_str());
            out.push(' ');
            out.push('.');
            out.push('\n');
            proof {
                assert(ts@.take(i + 1).drop_last() =~= ts@.take(i as int));
                assert(out@ =~= before + id_text(keys, s) + seq![' '] + id_text(keys, p) + seq![' ']
                    + id_text(keys, o) + seq![' ', '.', '\n']);
            }
            i += 1;
        }
        assert(ts@.take(i as int) =~= ts@);
        out
    }
}

/// The N-Triples form of an identifier.
pub open spec fn id_text(keys: Seq<Seq<char>>, id: u32) -> Seq<char> {
    if id < keys.len() {
        term_text(key_value(keys[id as int]), key_kind(keys[id as int]))
    } else {
        term_text(Seq::empty(), TermKind::Iri)
    }
}

/// One line per triple.
pub open spec fn dumped(keys: Seq<Seq<char>>, ts: Seq<IdTriple>) -> Seq<char>
    decreases ts.len(),
{
    if ts.len() == 0 {
        Seq::empty()
    } else {
        let t = ts.last();
        dumped(keys, ts.drop_last()) + id_text(keys, t.0) + seq![' '] + id_text(keys, t.1) + seq![' ']
            + id_text(keys, t.2) + seq![' ', '.', '\n']
    }
}

/// The triples after deletions and then insertions.
pub open spec fn updated_triples(set: Set<IdTriple>, inserts: Seq<IdTriple>, deletes: Seq<IdTriple>) -> Set<
    IdTriple,
> {
    set.difference(triple_set(deletes)).union(triple_set(inserts))
}

/// After an update every inserted triple is there, no triple that was only deleted
/// is, and all others are as before; the same update again changes nothing.
pub proof fn law_update(set: Set<IdTriple>, inserts: Seq<IdTriple>, deletes: Seq<IdTriple>, t: IdTriple)
    ensures
        inserts.contains(t) ==> updated_triples(set, inserts, deletes).contains(t),
        !inserts.contains(t) && deletes.contains(t) ==> !updated_triples(
            set,
            inserts,
            deletes,
        ).contains(t),
        !inserts.contains(t) && !deletes.contains(t) ==> updated_triples(
            set,
            inserts,
            deletes,
        ).contains(t) == set.contains(t),
        updated_triples(updated_triples(set, inserts, deletes), inserts, deletes)
            == updated_triples(set, inserts, deletes),
{
    assert(updated_triples(updated_triples(set, inserts, deletes), inserts, deletes)
        =~= updated_triples(set, inserts, deletes));
}

/// Deleting a triple undoes its insertion, and inserting it undoes its deletion.
pub proof fn law_insert_delete(set: Set<IdTriple>, t: IdTriple)
    ensures
        !set.contains(t) ==> set.insert(t).remove(t) == set,
        set.contains(t) ==> set.remove(t).insert(t) == set,
        set.insert(t).insert(t) == set.insert(t),
{
    assert(!set.contains(t) ==> set.insert(t).remove(t) =~= set);
    assert(set.contains(t) ==> set.remove(t).insert(t) =~= set);
    assert(set.insert(t).insert(t) =~= set.insert(t));
}

spec fn chain_sorted(s: Seq<(u32, u32)>) -> bool {
    forall|i: int, j: int|
        #![trigger s[i], s[j]]
        0 <= i < j < s.len() ==> s[i].1 < s[j].1 || (s[i].1 == s[j].1 && s[i].0 < s[j].0)
}

/// A triple of IRIs.
pub open spec fn iri_triple(s: Seq<char>, p: Seq<char>, o: Seq<char>) -> TripleText {
    TripleText {
        subject: TermText { value: s, typ: TermKind::Iri },
        predicate: TermText { value: p, typ: TermKind::Iri },
        object: TermText { value: o, typ: TermKind::Iri },
    }
}

pub open spec fn iri_triples(ts: Seq<(&str, &str, &str)>) -> Seq<TripleText> {
    ts.map_values(|t: (&str, &str, &str)| iri_triple(t.0@, t.1@, t.2@))
}

impl CardEstimator for Permutations {
    open spec fn ready(&self) -> bool {
        self.wf()
    }

    open spec fn spec_total(&self) -> usize {
        self.triples().len() as usize
    }

    open spec fn spec_sp(&self, s: u32, p: u32) -> usize {
        objects(self.triples(), s, p).len() as usize
    }

    open spec fn spec_po(&self, p: u32, o: u32) -> usize {
        subjects(self.triples(), p, o).len() as usize
    }

    open spec fn spec_os(&self, o: u32, s: u32) -> usize {
        predicates(self.triples(), s, o).len() as usize
    }

    open spec fn spec_sdeg(&self, s: u32) -> usize {
        (self.degrees().0)(s)
    }

    open spec fn spec_pdeg(&self, p: u32) -> usize {
        (self.degrees().1)(p)
    }

    open spec fn spec_odeg(&self, o: u32) -> usize {
        (self.degrees().2)(o)
    }

    fn total(&self) -> (n: usize) {
        self.len()
    }

    fn sp(&self, s: u32, p: u32) -> (n: usize) {
        self.count_objects(s, p)
    }

    fn po(&self, p: u32, o: u32) -> (n: usize) {
        self.count_subjects(p, o)
    }

    fn os(&self, o: u32, s: u32) -> (n: usize) {
        self.count_predicates(s, o)
    }

    fn sdeg(&self, s: u32) -> (n: usize) {
        self.subject_degree(s)
    }

    fn pdeg(&self, p: u32) -> (n: usize) {
        self.predicate_degree(p)
    }

    fn odeg(&self, o: u32) -> (n: usize) {
        self.object_degree(o)
    }
}

impl CardEstimator for TripleStore {
    open spec fn ready(&self) -> bool {
        self.wf()
    }

    open spec fn spec_total(&self) -> usize {
        self.index.spec_total()
    }

    open spec fn spec_sp(&self, s: u32, p: u32) -> usize {
        self.index.spec_sp(s, p)
    }

    open spec fn spec_po(&self, p: u32, o: u32) -> usize {
        self.index.spec_po(p, o)
    }

    open spec fn spec_os(&self, o: u32, s: u32) -> usize {
        self.index.spec_os(o, s)
    }

    open spec fn spec_sdeg(&self, s: u32) -> usize {
        self.index.spec_sdeg(s)
    }

    open spec fn spec_pdeg(&self, p: u32) -> usize {
        self.index.spec_pdeg(p)
    }

    open spec fn spec_odeg(&self, o: u32) -> usize {
        self.index.spec_odeg(o)
    }

    fn total(&self) -> (n: usize) {
        self.index.total()
    }

    fn sp(&self, s: u32, p: u32) -> (n: usize) {
        self.index.sp(s, p)
    }

    fn po(&self, p: u32, o: u32) -> (n: usize) {
        self.index.po(p, o)
    }

    fn os(&self, o: u32, s: u32) -> (n: usize) {
        self.index.os(o, s)
    }

    fn sdeg(&self, s: u32) -> (n: usize) {
        self.index.sdeg(s)
    }

    fn pdeg(&self, p: u32) -> (n: usize) {
        self.index.pdeg(p)
    }

    fn odeg(&self, o: u32) -> (n: usize) {
        self.index.odeg(o)
    }
}

impl Default for TripleStore {
    fn default() -> (r: TripleStore)
        ensures
            r.wf(),
            r.triples() == Set::<IdTriple>::empty(),
            r.dict.keys() == Seq::<Seq<char>>::empty(),
    {
        TripleStore::new()
    }
}

} // verus!
