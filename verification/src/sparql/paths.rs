//! Property paths.
//!
//! A path is a relation between nodes. It is walked from a set of nodes, forward
//! or backward; closures are walked breadth first until nothing new is found.

use crate::hypertrie::csr::IdTriple;
use crate::hypertrie::dictionary::{key_id, term_key, Dictionary, TermKind};
use crate::hypertrie::index::cow_slice;
use crate::hypertrie::permutations::{
    objects, po_pairs, sp_pairs, subjects, Permutations,
};
use crate::hypertrie::query::TripleStore;
use crate::hypertrie::rows::RowBlock;
use crate::idset::{lemma_distinct_bound, IdSet};
use crate::sorted::{in_order, increasing, members};
use crate::sparql::algebra::{texts, Node, NodeView, PathExpr, PathView};
use crate::sparql::tables::{op_too_large, outcome, within, Outcome, Solutions, Table};
use crate::text::same_text;
use vstd::prelude::*;
use vstd::slice::slice_to_vec;

verus! {

/// The identifier of an IRI.
pub open spec fn iri_id(keys: Seq<Seq<char>>, iri: Seq<char>) -> Option<u32> {
    key_id(keys, term_key(iri, TermKind::Iri))
}

/// Whether predicate `p` is one of the listed IRIs.
pub open spec fn excluded(keys: Seq<Seq<char>>, iris: Seq<Seq<char>>, p: u32) -> bool {
    exists|i: int| 0 <= i < iris.len() && #[trigger] iri_id(keys, iris[i]) == Some(p)
}

/// One relation after another.
pub open spec fn composed(
    first: spec_fn(u32, u32) -> bool,
    second: spec_fn(u32, u32) -> bool,
    a: u32,
    b: u32,
) -> bool {
    exists|c: u32| #[trigger] first(a, c) && second(c, b)
}

/// A relation, taken `n` times.
pub open spec fn chain(r: spec_fn(u32, u32) -> bool, n: nat, a: u32, b: u32) -> bool
    decreases n,
{
    if n == 0 {
        a == b
    } else {
        exists|c: u32| #[trigger] r(a, c) && chain(r, (n - 1) as nat, c, b)
    }
}

/// A relation, taken as often as it takes, at least `least` times.
pub open spec fn repeated(r: spec_fn(u32, u32) -> bool, least: nat, a: u32, b: u32) -> bool {
    exists|n: nat| n >= least && chain(r, n, a, b)
}

/// Some predicate that is not listed leads from `a` to `b`.
pub open spec fn otherwise(
    set: Set<IdTriple>,
    keys: Seq<Seq<char>>,
    iris: Seq<Seq<char>>,
    a: u32,
    b: u32,
) -> bool {
    exists|pid: u32| #[trigger] set.contains((a, pid, b)) && !excluded(keys, iris, pid)
}

/// The pairs of nodes that a path connects.
pub open spec fn relation(set: Set<IdTriple>, keys: Seq<Seq<char>>, p: PathView) -> spec_fn(
    u32,
    u32,
) -> bool
    decreases p,
{
    match p {
        PathView::Link(iri) => |a: u32, b: u32|
            iri_id(keys, iri) is Some && set.contains((a, iri_id(keys, iri)->0, b)),
        PathView::Reverse(e) => {
            let r = relation(set, keys, *e);
            |a: u32, b: u32| r(b, a)
        },
        PathView::Sequence(x, y) => {
            let r = relation(set, keys, *x);
            let q = relation(set, keys, *y);
            |a: u32, b: u32| composed(r, q, a, b)
        },
        PathView::Alternative(x, y) => {
            let r = relation(set, keys, *x);
            let q = relation(set, keys, *y);
            |a: u32, b: u32| r(a, b) || q(a, b)
        },
        PathView::ZeroOrMore(e) => {
            let r = relation(set, keys, *e);
            |a: u32, b: u32| repeated(r, 0, a, b)
        },
        PathView::OneOrMore(e) => {
            let r = relation(set, keys, *e);
            |a: u32, b: u32| repeated(r, 1, a, b)
        },
        PathView::ZeroOrOne(e) => {
            let r = relation(set, keys, *e);
            |a: u32, b: u32| a == b || r(a, b)
        },
        PathView::Negated(iris) => |a: u32, b: u32| otherwise(set, keys, iris, a, b),
    }
}

/// The path leads from `a` to `b`.
pub open spec fn linked(set: Set<IdTriple>, keys: Seq<Seq<char>>, p: PathView, a: u32, b: u32) -> bool {
    relation(set, keys, p)(a, b)
}

/// One step of a walk, forward or backward.
pub open spec fn edge(r: spec_fn(u32, u32) -> bool, forward: bool, a: u32, b: u32) -> bool {
    if forward {
        r(a, b)
    } else {
        r(b, a)
    }
}

/// The nodes that a walk leads to from a set of nodes.
pub open spec fn image(r: spec_fn(u32, u32) -> bool, from: Set<u32>, forward: bool) -> Set<u32> {
    Set::new(|b: u32| exists|a: u32| #[trigger] from.contains(a) && edge(r, forward, a, b))
}

/// Walking a path backward is walking its reverse forward.
pub proof fn law_backward_is_reverse(
    set: Set<IdTriple>,
    keys: Seq<Seq<char>>,
    p: PathView,
    from: Set<u32>,
)
    ensures
        image(relation(set, keys, p), from, false) == image(
            relation(set, keys, PathView::Reverse(Box::new(p))),
            from,
            true,
        ),
{
    let r = relation(set, keys, p);
    let q = relation(set, keys, PathView::Reverse(Box::new(p)));
    assert forall|a: u32, b: u32| #[trigger] edge(r, false, a, b) == edge(q, true, a, b) by {}
    assert(image(r, from, false) =~= image(q, from, true));
}

/// `p*` holds of every node with itself; `p+` holds where `p` does; `p*` and then
/// `p` is `p+`; and `p*` is `p+` or the identity.
pub proof fn law_closures(set: Set<IdTriple>, keys: Seq<Seq<char>>, p: PathView, a: u32, b: u32, c: u32)
    ensures
        linked(set, keys, PathView::ZeroOrMore(Box::new(p)), a, a),
        linked(set, keys, p, a, b) ==> linked(set, keys, PathView::OneOrMore(Box::new(p)), a, b),
        linked(set, keys, PathView::ZeroOrMore(Box::new(p)), a, b) && linked(set, keys, p, b, c)
            ==> linked(set, keys, PathView::OneOrMore(Box::new(p)), a, c),
        linked(set, keys, PathView::ZeroOrMore(Box::new(p)), a, b) <==> a == b || linked(
            set,
            keys,
            PathView::OneOrMore(Box::new(p)),
            a,
            b,
        ),
{
    let r = relation(set, keys, p);
    let any = relation(set, keys, PathView::ZeroOrMore(Box::new(p)));
    let some = relation(set, keys, PathView::OneOrMore(Box::new(p)));
    assert(any(a, b) == repeated(r, 0, a, b));
    assert(any(a, a) == repeated(r, 0, a, a));
    assert(some(a, b) == repeated(r, 1, a, b));
    assert(some(a, c) == repeated(r, 1, a, c));
    assert(chain(r, 0, a, a));
    if r(a, b) {
        assert(chain(r, 0, b, b));
        assert(chain(r, 1, a, b));
    }
    if any(a, b) && r(b, c) {
        let n = choose|n: nat| n >= 0 && chain(r, n, a, b);
        lemma_chain_append(r, n, a, b, c);
    }
    if some(a, b) {
        let n = choose|n: nat| n >= 1 && chain(r, n, a, b);
        assert(n >= 0 && chain(r, n, a, b));
    }
    if any(a, b) {
        let n = choose|n: nat| n >= 0 && chain(r, n, a, b);
        if n > 0 {
            assert(n >= 1 && chain(r, n, a, b));
        }
    }
}

proof fn lemma_chain_append(r: spec_fn(u32, u32) -> bool, n: nat, a: u32, b: u32, c: u32)
    requires
        chain(r, n, a, b),
        r(b, c),
    ensures
        chain(r, n + 1, a, c),
    decreases n,
{
    if n == 0 {
        assert(chain(r, 0, c, c));
        assert(r(a, c) && chain(r, ((n + 1) - 1) as nat, c, c));
    } else {
        let x = choose|x: u32| #[trigger] r(a, x) && chain(r, (n - 1) as nat, x, b);
        lemma_chain_append(r, (n - 1) as nat, x, b, c);
        assert(r(a, x) && chain(r, ((n + 1) - 1) as nat, x, c));
    }
}

/// A walk of `n` steps.
spec fn walk(r: spec_fn(u32, u32) -> bool, forward: bool, n: nat, a: u32, b: u32) -> bool {
    if forward {
        chain(r, n, a, b)
    } else {
        chain(r, n, b, a)
    }
}

proof fn lemma_walk_step(r: spec_fn(u32, u32) -> bool, forward: bool, n: nat, a: u32, b: u32, c: u32)
    requires
        walk(r, forward, n, a, b),
        edge(r, forward, b, c),
    ensures
        walk(r, forward, n + 1, a, c),
{
    if forward {
        lemma_chain_append(r, n, a, b, c);
    } else {
        assert(r(c, b) && chain(r, ((n + 1) - 1) as nat, b, a));
    }
}

/// What is closed under steps holds the end of every walk that begins in it.
proof fn lemma_walk_stays(
    r: spec_fn(u32, u32) -> bool,
    forward: bool,
    n: nat,
    a: u32,
    b: u32,
    room: Set<u32>,
)
    requires
        walk(r, forward, n, a, b),
        n > 0,
        forall|y: u32| #[trigger] edge(r, forward, a, y) ==> room.contains(y),
        forall|x: u32, y: u32| #[trigger]
            edge(r, forward, x, y) && room.contains(x) ==> room.contains(y),
    ensures
        room.contains(b),
    decreases n,
{
    let m = (n - 1) as nat;
    if forward {
        let c = choose|c: u32| #[trigger] r(a, c) && chain(r, m, c, b);
        assert(edge(r, forward, a, c));
        if m > 0 {
            lemma_walk_stays(r, forward, m, c, b, room);
        }
    } else {
        lemma_last_link(r, n, b, a);
        let c = choose|c: u32| #[trigger] r(c, a) && chain(r, m, b, c);
        assert(edge(r, forward, a, c));
        if m > 0 {
            lemma_walk_stays(r, forward, m, c, b, room);
        }
    }
}

/// A chain can be split before its last link.
proof fn lemma_last_link(r: spec_fn(u32, u32) -> bool, n: nat, a: u32, b: u32)
    requires
        n > 0,
        chain(r, n, a, b),
    ensures
        exists|c: u32| #[trigger] r(c, b) && chain(r, (n - 1) as nat, a, c),
    decreases n,
{
    let m = (n - 1) as nat;
    let x = choose|x: u32| #[trigger] r(a, x) && chain(r, m, x, b);
    if n == 1 {
        assert(chain(r, 0, a, a));
        assert(r(a, b) && chain(r, m, a, a));
    } else {
        lemma_last_link(r, m, x, b);
        let c = choose|c: u32| #[trigger] r(c, b) && chain(r, (m - 1) as nat, x, c);
        assert(r(a, x) && chain(r, (m - 1) as nat, x, c));
        assert(chain(r, m, a, c));
        assert(r(c, b) && chain(r, m, a, c));
    }
}

// --- Walks -----------------------------------------------------------------------------

/// The nodes reached over one predicate.
fn step_link(store: &TripleStore, iri: &str, from: &Vec<u32>, forward: bool) -> (r: Vec<u32>)
    requires
        store.wf(),
    ensures
        r@ == in_order(members(r@)),
        increasing(r@),
        members(r@) == image(
            relation(store.triples(), store.dict.keys(), PathView::Link(iri@)),
            members(from@),
            forward,
        ),
{
    let ghost set = store.triples();
    let ghost keys = store.dict.keys();
    let ghost p = PathView::Link(iri@);
    let ghost rel = relation(set, keys, p);
    let ghost want = image(rel, members(from@), forward);
    let mut out: IdSet = IdSet::new();
    if let Some(pid) = store.dict.lookup_iri(iri) {
        let mut i: usize = 0;
        proof {
            assert(out.ids() =~= image(rel, members(from@.take(0)), forward));
        }
        while i < from.len()
            invariant
                store.wf(),
                set == store.triples(),
                keys == store.dict.keys(),
                p == PathView::Link(iri@),
                rel == relation(set, keys, p),
                iri_id(keys, iri@) == Some(pid),
                i <= from@.len(),
                out.wf(),
                out.ids() == image(rel, members(from@.take(i as int)), forward),
            decreases from@.len() - i,
        {
            let x: u32 = from[i];
            let ghost before = out.ids();
            if forward {
                let c = store.objects_of(x, pid);
                out.add_all(cow_slice(&c));
            } else {
                let c = store.subjects_of(pid, x);
                out.add_all(cow_slice(&c));
            }
            proof {
                let f0 = from@.take(i as int);
                let f1 = from@.take(i + 1);
                assert(f1 =~= f0.push(x));
                let w1 = image(rel, members(f1), forward);
                assert forall|y: u32| out.ids().contains(y) <==> w1.contains(y) by {
                    if before.contains(y) {
                        let a = choose|a: u32| #[trigger]
                            members(f0).contains(a) && edge(rel, forward, a, y);
                        crate::sorted::lemma_push_contains(f0, x, a);
                        assert(members(f1).contains(a));
                    }
                    crate::sorted::lemma_push_contains(f0, x, x);
                    assert(members(f1).contains(x));
                    if w1.contains(y) {
                        let a = choose|a: u32| #[trigger]
                            members(f1).contains(a) && edge(rel, forward, a, y);
                        crate::sorted::lemma_push_contains(f0, x, a);
                        if a != x {
                            assert(members(f0).contains(a));
                        }
                    }
                    assert(edge(rel, forward, x, y) <==> (if forward {
                        set.contains((x, pid, y))
                    } else {
                        set.contains((y, pid, x))
                    }));
                }
                assert(out.ids() =~= w1);
            }
            i += 1;
        }
        assert(from@.take(i as int) =~= from@);
    } else {
        assert(out.ids() =~= want);
    }
    out.sorted()
}

/// Whether a predicate is one of the listed IRIs.
fn is_excluded(dict: &Dictionary, iris: &Vec<String>, p: u32) -> (r: bool)
    requires
        dict.wf(),
    ensures
        r == excluded(dict.keys(), texts(iris@), p),
{
    let ghost ts = texts(iris@);
    let mut i: usize = 0;
    while i < iris.len()
        invariant
            dict.wf(),
            ts == texts(iris@),
            i <= iris@.len(),
            forall|k: int| 0 <= k < i ==> #[trigger] iri_id(dict.keys(), ts[k]) != Some(p),
        decreases iris@.len() - i,
    {
        let id: Option<u32> = dict.lookup_iri(iris[i].as_str());
        assert(ts[i as int] == iris@[i as int]@);
        if let Some(x) = id {
            if x == p {
                assert(iri_id(dict.keys(), ts[i as int]) == Some(p));
                return true;
            }
        }
        i += 1;
    }
    false
}

/// The nodes reached over any predicate but the listed ones.
fn step_negated(store: &TripleStore, iris: &Vec<String>, from: &Vec<u32>, forward: bool) -> (r: Vec<u32>)
    requires
        store.wf(),
    ensures
        r@ == in_order(members(r@)),
        increasing(r@),
        members(r@) == image(
            relation(store.triples(), store.dict.keys(), PathView::Negated(texts(iris@))),
            members(from@),
            forward,
        ),
{
    let ghost set = store.triples();
    let ghost keys = store.dict.keys();
    let ghost p = PathView::Negated(texts(iris@));
    let ghost rel = relation(set, keys, p);
    let mut out: IdSet = IdSet::new();
    let mut i: usize = 0;
    proof {
        assert(out.ids() =~= image(rel, members(from@.take(0)), forward));
    }
    while i < from.len()
        invariant
            store.wf(),
            set == store.triples(),
            keys == store.dict.keys(),
            p == PathView::Negated(texts(iris@)),
            rel == relation(set, keys, p),
            i <= from@.len(),
            out.wf(),
            out.ids() == image(rel, members(from@.take(i as int)), forward),
        decreases from@.len() - i,
    {
        let x: u32 = from[i];
        let ghost before = out.ids();
        let pairs: Vec<(u32, u32)> = if forward {
            store.po_pairs_of(x)
        } else {
            store.sp_pairs_of(x)
        };
        let ghost ps = pairs@;
        // The node and the predicate of a pair.
        let ghost node = |q: (u32, u32)| if forward { q.1 } else { q.0 };
        let ghost pred = |q: (u32, u32)| if forward { q.0 } else { q.1 };
        let mut k: usize = 0;
        while k < pairs.len()
            invariant
                store.wf(),
                keys == store.dict.keys(),
                ps == pairs@,
                k <= pairs@.len(),
                node == (|q: (u32, u32)| if forward { q.1 } else { q.0 }),
                pred == (|q: (u32, u32)| if forward { q.0 } else { q.1 }),
                out.wf(),
                forall|y: u32| #[trigger]
                    out.ids().contains(y) <==> before.contains(y) || exists|j: int|
                        0 <= j < k && node(#[trigger] ps[j]) == y && !excluded(
                            keys,
                            texts(iris@),
                            pred(ps[j]),
                        ),
            decreases pairs@.len() - k,
        {
            let q: (u32, u32) = pairs[k];
            let (pid, other) = if forward {
                (q.0, q.1)
            } else {
                (q.1, q.0)
            };
            let skip: bool = is_excluded(&store.dict, iris, pid);
            let ghost mid = out.ids();
            if !skip {
                let _new: bool = out.add_id(other);
            }
            proof {
                assert(ps[k as int] == q);
                assert forall|y: u32| #[trigger]
                    out.ids().contains(y) <==> before.contains(y) || exists|j: int|
                        0 <= j < k + 1 && node(#[trigger] ps[j]) == y && !excluded(
                            keys,
                            texts(iris@),
                            pred(ps[j]),
                        ) by {
                    if mid.contains(y) && !before.contains(y) {
                        let j = choose|j: int|
                            0 <= j < k && node(#[trigger] ps[j]) == y && !excluded(
                                keys,
                                texts(iris@),
                                pred(ps[j]),
                            );
                        assert(0 <= j < k + 1);
                    }
                    if exists|j: int|
                        0 <= j < k + 1 && node(#[trigger] ps[j]) == y && !excluded(
                            keys,
                            texts(iris@),
                            pred(ps[j]),
                        ) {
                        let j = choose|j: int|
                            0 <= j < k + 1 && node(#[trigger] ps[j]) == y && !excluded(
                                keys,
                                texts(iris@),
                                pred(ps[j]),
                            );
                        if j < k {
                            assert(mid.contains(y));
                        }
                    }
                }
            }
            k += 1;
        }
        proof {
            let f0 = from@.take(i as int);
            let f1 = from@.take(i + 1);
            assert(f1 =~= f0.push(x));
            let w1 = image(rel, members(f1), forward);
            assert forall|y: u32| out.ids().contains(y) <==> w1.contains(y) by {
                crate::sorted::lemma_push_contains(f0, x, x);
                assert(members(f1).contains(x));
                if before.contains(y) {
                    let a = choose|a: u32| #[trigger]
                        members(f0).contains(a) && edge(rel, forward, a, y);
                    crate::sorted::lemma_push_contains(f0, x, a);
                    assert(members(f1).contains(a));
                }
                if exists|j: int|
                    0 <= j < ps.len() && node(#[trigger] ps[j]) == y && !excluded(
                        keys,
                        texts(iris@),
                        pred(ps[j]),
                    ) {
                    let j = choose|j: int|
                        0 <= j < ps.len() && node(#[trigger] ps[j]) == y && !excluded(
                            keys,
                            texts(iris@),
                            pred(ps[j]),
                        );
                    let q = ps[j];
                    assert(ps.contains(q));
                    assert(crate::hypertrie::csr::pair_set(ps).contains(q));
                    if forward {
                        assert(set.contains((x, q.0, y)));
                    } else {
                        assert(set.contains((y, q.1, x)));
                    }
                    assert(edge(rel, forward, x, y));
                }
                if w1.contains(y) {
                    let a = choose|a: u32| #[trigger]
                        members(f1).contains(a) && edge(rel, forward, a, y);
                    crate::sorted::lemma_push_contains(f0, x, a);
                    if a != x {
                        assert(members(f0).contains(a));
                    } else {
                        let pid = if forward {
                            choose|pid: u32| #[trigger]
                                set.contains((a, pid, y)) && !excluded(keys, texts(iris@), pid)
                        } else {
                            choose|pid: u32| #[trigger]
                                set.contains((y, pid, a)) && !excluded(keys, texts(iris@), pid)
                        };
                        let q = if forward {
                            (pid, y)
                        } else {
                            (y, pid)
                        };
                        if forward {
                            assert(po_pairs(set, x).contains(q));
                        } else {
                            assert(sp_pairs(set, x).contains(q));
                        }
                        assert(crate::hypertrie::csr::pair_set(ps).contains(q));
                        let j = choose|j: int| 0 <= j < ps.len() && ps[j] == q;
                        assert(node(ps[j]) == y && pred(ps[j]) == pid);
                    }
                }
            }
            assert(out.ids() =~= w1);
        }
        i += 1;
    }
    assert(from@.take(i as int) =~= from@);
    out.sorted()
}

/// Two sets of nodes as one.
fn either(a: Vec<u32>, b: &Vec<u32>) -> (r: Vec<u32>)
    ensures
        r@ == in_order(members(r@)),
        increasing(r@),
        members(r@) == members(a@).union(members(b@)),
{
    let mut out: IdSet = IdSet::new();
    out.add_all(a.as_slice());
    out.add_all(b.as_slice());
    assert(out.ids() =~= members(a@).union(members(b@)));
    out.sorted()
}

/// The step of a composite path in terms of its parts.
proof fn lemma_image_of_parts(
    set: Set<IdTriple>,
    keys: Seq<Seq<char>>,
    p: PathView,
    from: Set<u32>,
    forward: bool,
)
    ensures
        ({
            let whole = image(relation(set, keys, p), from, forward);
            match p {
                PathView::Reverse(e) => whole == image(relation(set, keys, *e), from, !forward),
                PathView::Sequence(x, y) => {
                    let (first, second) = if forward {
                        (relation(set, keys, *x), relation(set, keys, *y))
                    } else {
                        (relation(set, keys, *y), relation(set, keys, *x))
                    };
                    whole == image(second, image(first, from, forward), forward)
                },
                PathView::Alternative(x, y) => whole == image(
                    relation(set, keys, *x),
                    from,
                    forward,
                ).union(image(relation(set, keys, *y), from, forward)),
                PathView::ZeroOrOne(e) => whole == from.union(
                    image(relation(set, keys, *e), from, forward),
                ),
                _ => true,
            }
        }),
{
    let rel = relation(set, keys, p);
    let whole = image(rel, from, forward);
    match p {
        PathView::Reverse(e) => {
            let r = relation(set, keys, *e);
            assert forall|a: u32, b: u32| #[trigger]
                edge(rel, forward, a, b) == edge(r, !forward, a, b) by {}
            assert(whole =~= image(r, from, !forward));
        },
        PathView::Sequence(x, y) => {
            let (first, second) = if forward {
                (relation(set, keys, *x), relation(set, keys, *y))
            } else {
                (relation(set, keys, *y), relation(set, keys, *x))
            };
            let r = relation(set, keys, *x);
            let q = relation(set, keys, *y);
            let mid = image(first, from, forward);
            let end = image(second, mid, forward);
            assert forall|b: u32| whole.contains(b) <==> end.contains(b) by {
                if whole.contains(b) {
                    let a = choose|a: u32| #[trigger] from.contains(a) && edge(rel, forward, a, b);
                    if forward {
                        let c = choose|c: u32| #[trigger] r(a, c) && q(c, b);
                        assert(edge(first, forward, a, c));
                        assert(mid.contains(c) && edge(second, forward, c, b));
                    } else {
                        let c = choose|c: u32| #[trigger] r(b, c) && q(c, a);
                        assert(edge(first, forward, a, c));
                        assert(mid.contains(c) && edge(second, forward, c, b));
                    }
                }
                if end.contains(b) {
                    let c = choose|c: u32| #[trigger] mid.contains(c) && edge(second, forward, c, b);
                    let a = choose|a: u32| #[trigger] from.contains(a) && edge(first, forward, a, c);
                    if forward {
                        assert(r(a, c) && q(c, b));
                        assert(composed(r, q, a, b));
                    } else {
                        assert(r(b, c) && q(c, a));
                        assert(composed(r, q, b, a));
                    }
                    assert(edge(rel, forward, a, b));
                }
            }
            assert(whole =~= end);
        },
        PathView::Alternative(x, y) => {
            let r = relation(set, keys, *x);
            let q = relation(set, keys, *y);
            let both = image(r, from, forward).union(image(q, from, forward));
            assert forall|a: u32, b: u32| #[trigger]
                edge(rel, forward, a, b) == (edge(r, forward, a, b) || edge(q, forward, a, b)) by {}
            assert(whole =~= both);
        },
        PathView::ZeroOrOne(e) => {
            let r = relation(set, keys, *e);
            assert forall|a: u32, b: u32| #[trigger]
                edge(rel, forward, a, b) == (a == b || edge(r, forward, a, b)) by {}
            let both = from.union(image(r, from, forward));
            assert forall|b: u32| whole.contains(b) <==> both.contains(b) by {
                if from.contains(b) {
                    assert(edge(rel, forward, b, b));
                }
            }
            assert(whole =~= both);
        },
        _ => {},
    }
}

/// The nodes that the path leads to from `from`: forward, or, walked backward,
/// the nodes that it leads from.
pub fn step(store: &TripleStore, path: &PathExpr, from: &Vec<u32>, forward: bool) -> (r: Vec<u32>)
    requires
        store.wf(),
    ensures
        r@ == in_order(members(r@)),
        increasing(r@),
        members(r@) == image(
            relation(store.triples(), store.dict.keys(), path.view()),
            members(from@),
            forward,
        ),
    decreases path, 0nat,
{
    proof {
        lemma_image_of_parts(
            store.triples(),
            store.dict.keys(),
            path.view(),
            members(from@),
            forward,
        );
    }
    match path {
        PathExpr::Link(iri) => step_link(store, iri.as_str(), from, forward),
        PathExpr::Reverse(e) => step(store, e, from, !forward),
        PathExpr::Sequence(a, b) => {
            if forward {
                let mid: Vec<u32> = step(store, a, from, forward);
                step(store, b, &mid, forward)
            } else {
                let mid: Vec<u32> = step(store, b, from, forward);
                step(store, a, &mid, forward)
            }
        },
        PathExpr::Alternative(a, b) => {
            let x: Vec<u32> = step(store, a, from, forward);
            let y: Vec<u32> = step(store, b, from, forward);
            either(x, &y)
        },
        PathExpr::ZeroOrMore(e) => closure(store, e, from, true, forward),
        PathExpr::OneOrMore(e) => closure(store, e, from, false, forward),
        PathExpr::ZeroOrOne(e) => {
            let x: Vec<u32> = step(store, e, from, forward);
            let r: Vec<u32> = either(x, from);
            assert(members(x@).union(members(from@)) =~= members(from@).union(members(x@)));
            r
        },
        PathExpr::Negated(iris) => step_negated(store, iris, from, forward),
    }
}

/// The relation that a closure repeats, as often as it takes.
spec fn closed(r: spec_fn(u32, u32) -> bool, reflexive: bool) -> spec_fn(u32, u32) -> bool {
    |a: u32, b: u32|
        repeated(
            r,
            if reflexive {
                0
            } else {
                1
            },
            a,
            b,
        )
}

/// What a walk from `from` finds, however long it is.
spec fn found(r: spec_fn(u32, u32) -> bool, from: Set<u32>, forward: bool, b: u32) -> bool {
    exists|a: u32, n: nat| #[trigger] from.contains(a) && #[trigger] walk(r, forward, n, a, b)
}

proof fn lemma_found_step(
    r: spec_fn(u32, u32) -> bool,
    from: Set<u32>,
    forward: bool,
    x: u32,
    y: u32,
    least: nat,
)
    requires
        found(r, from, forward, x),
        edge(r, forward, x, y),
        least <= 1,
    ensures
        found(r, from, forward, y),
        image(closed(r, least == 0), from, forward).contains(y),
{
    let (a, n) = choose|a: u32, n: nat| #[trigger]
        from.contains(a) && #[trigger] walk(r, forward, n, a, x);
    lemma_walk_step(r, forward, n, a, x, y);
    assert(from.contains(a) && walk(r, forward, n + 1, a, y));
    assert(n + 1 >= least);
    let c = closed(r, least == 0);
    if forward {
        assert(chain(r, n + 1, a, y));
        assert(repeated(r, least, a, y));
        assert(c(a, y));
    } else {
        assert(chain(r, n + 1, y, a));
        assert(repeated(r, least, y, a));
        assert(c(y, a));
    }
    assert(edge(c, forward, a, y));
}

/// Once no step leads out of `done`, everything that the closure holds is in it.
proof fn lemma_closure_complete(
    r: spec_fn(u32, u32) -> bool,
    from: Set<u32>,
    done: Set<u32>,
    reflexive: bool,
    forward: bool,
)
    requires
        reflexive ==> from.subset_of(done),
        forall|x: u32, y: u32| #[trigger]
            edge(r, forward, x, y) && (from.contains(x) || done.contains(x)) ==> done.contains(y),
    ensures
        image(closed(r, reflexive), from, forward).subset_of(done),
{
    let c = closed(r, reflexive);
    let least: nat = if reflexive {
        0
    } else {
        1
    };
    assert forall|b: u32| image(c, from, forward).contains(b) implies done.contains(b) by {
        let a = choose|a: u32| #[trigger] from.contains(a) && edge(c, forward, a, b);
        let n = if forward {
            choose|n: nat| n >= least && chain(r, n, a, b)
        } else {
            choose|n: nat| n >= least && chain(r, n, b, a)
        };
        assert(if forward {
            repeated(r, least, a, b)
        } else {
            repeated(r, least, b, a)
        });
        assert(n >= least && walk(r, forward, n, a, b));
        if n > 0 {
            lemma_walk_stays(r, forward, n, a, b, done);
        }
    }
}

/// The nodes that a path leads to when it is taken any number of times, at least
/// once unless `reflexive`: breadth first, until a round finds nothing new.
fn closure(
    store: &TripleStore,
    e: &PathExpr,
    from: &Vec<u32>,
    reflexive: bool,
    forward: bool,
) -> (res: Vec<u32>)
    requires
        store.wf(),
    ensures
        res@ == in_order(members(res@)),
        increasing(res@),
        members(res@) == image(
            relation(
                store.triples(),
                store.dict.keys(),
                if reflexive {
                    PathView::ZeroOrMore(Box::new(e.view()))
                } else {
                    PathView::OneOrMore(Box::new(e.view()))
                },
            ),
            members(from@),
            forward,
        ),
    decreases e, 1nat,
{
    let ghost r = relation(store.triples(), store.dict.keys(), e.view());
    let ghost start = members(from@);
    let ghost want = image(closed(r, reflexive), start, forward);
    let mut result: IdSet = IdSet::new();
    if reflexive {
        result.add_all(from.as_slice());
    }
    let mut frontier: Vec<u32> = slice_to_vec(from.as_slice());
    proof {
        assert forall|b: u32| start.contains(b) implies found(r, start, forward, b) by {
            assert(walk(r, forward, 0, b, b));
        }
        assert forall|b: u32| result.ids().contains(b) implies want.contains(b) by {
            assert(start.contains(b));
            assert(chain(r, 0, b, b));
            assert(repeated(r, 0, b, b));
            assert(edge(closed(r, reflexive), forward, b, b));
        }
    }
    loop
        invariant
            store.wf(),
            r == relation(store.triples(), store.dict.keys(), e.view()),
            start == members(from@),
            want == image(closed(r, reflexive), start, forward),
            result.wf(),
            reflexive ==> start.subset_of(result.ids()),
            result.ids().subset_of(want),
            forall|b: u32| #[trigger]
                members(frontier@).contains(b) ==> found(r, start, forward, b),
            forall|x: u32, y: u32| #[trigger]
                edge(r, forward, x, y) && (start.contains(x) || result.ids().contains(x))
                    && !members(frontier@).contains(x) ==> result.ids().contains(y),
        ensures
            result.wf(),
            result.ids() == want,
        decreases 0x1_0000_0000 - result.list@.len(),
    {
        let next: Vec<u32> = step(store, e, &frontier, forward);
        let ghost before = result.ids();
        let mut fresh: Vec<u32> = Vec::new();
        let mut i: usize = 0;
        let ghost len0 = result.list@.len();
        proof {
            lemma_distinct_bound(result.list@);
            assert(before.union(members(next@.take(0))) =~= before);
        }
        while i < next.len()
            invariant
                i <= next@.len(),
                result.wf(),
                result.ids() == before.union(members(next@.take(i as int))),
                forall|b: u32| #[trigger]
                    fresh@.contains(b) <==> next@.take(i as int).contains(b) && !before.contains(b),
                result.list@.len() >= len0,
                fresh@.len() > 0 ==> result.list@.len() > len0,
            decreases next@.len() - i,
        {
            let x: u32 = next[i];
            let ghost mid = fresh@;
            let ghost had = result.ids();
            let new: bool = result.add_id(x);
            if new {
                fresh.push(x);
            }
            proof {
                let t0 = next@.take(i as int);
                let t1 = next@.take(i + 1);
                assert(t1 =~= t0.push(x));
                assert forall|b: u32| t1.contains(b) <==> t0.contains(b) || b == x by {
                    crate::sorted::lemma_push_contains(t0, x, b);
                }
                assert(members(t1) =~= members(t0).insert(x));
                assert(result.ids() =~= before.union(members(t1)));
                assert forall|b: u32| #[trigger]
                    fresh@.contains(b) <==> t1.contains(b) && !before.contains(b) by {
                    if new {
                        crate::sorted::lemma_push_contains(mid, x, b);
                    }
                    assert(mid.contains(b) <==> t0.contains(b) && !before.contains(b));
                }
            }
            i += 1;
        }
        proof {
            assert(next@.take(i as int) =~= next@);
            let from_next = image(r, members(frontier@), forward);
            assert forall|y: u32| result.ids().contains(y) implies want.contains(y) by {
                if !before.contains(y) {
                    assert(from_next.contains(y));
                    let x = choose|x: u32| #[trigger]
                        members(frontier@).contains(x) && edge(r, forward, x, y);
                    let least: nat = if reflexive {
                        0
                    } else {
                        1
                    };
                    lemma_found_step(r, start, forward, x, y, least);
                }
            }
            assert forall|b: u32| #[trigger] members(fresh@).contains(b) implies found(
                r,
                start,
                forward,
                b,
            ) by {
                assert(fresh@.contains(b));
                assert(from_next.contains(b));
                let x = choose|x: u32| #[trigger]
                    members(frontier@).contains(x) && edge(r, forward, x, b);
                lemma_found_step(r, start, forward, x, b, 0);
            }
            assert forall|x: u32, y: u32| #[trigger]
                edge(r, forward, x, y) && (start.contains(x) || result.ids().contains(x))
                    && !members(fresh@).contains(x) implies result.ids().contains(y) by {
                assert(!fresh@.contains(x));
                if members(frontier@).contains(x) {
                    assert(from_next.contains(y));
                    assert(members(next@).contains(y));
                } else if !start.contains(x) {
                    assert(before.contains(x));
                }
            }
        }
        if fresh.len() == 0 {
            proof {
                assert forall|x: u32| !members(fresh@).contains(x) by {}
                lemma_closure_complete(r, start, result.ids(), reflexive, forward);
                assert(result.ids() =~= want);
            }
            break;
        }
        proof {
            lemma_distinct_bound(result.list@);
        }
        frontier = fresh;
    }
    proof {
        let p = if reflexive {
            PathView::ZeroOrMore(Box::new(e.view()))
        } else {
            PathView::OneOrMore(Box::new(e.view()))
        };
        let whole = relation(store.triples(), store.dict.keys(), p);
        assert forall|a: u32, b: u32| #[trigger]
            edge(whole, forward, a, b) == edge(closed(r, reflexive), forward, a, b) by {}
        assert(image(whole, start, forward) =~= want);
    }
    result.sorted()
}

// --- Path patterns ---------------------------------------------------------------------

/// The column of a pattern position: a variable, or a blank node under a name
/// that no variable has.
pub open spec fn node_var(n: NodeView) -> Option<Seq<char>> {
    match n {
        NodeView::Variable(v) => Some(v),
        NodeView::Blank(l) => Some("__bn_"@ + l),
        NodeView::Known(_, _) => None,
    }
}

/// The identifier of a known term.
pub open spec fn node_id(keys: Seq<Seq<char>>, n: NodeView) -> Option<u32> {
    match n {
        NodeView::Known(v, k) => key_id(keys, term_key(v, k)),
        _ => None,
    }
}

/// The name of the column of a pattern position.
pub fn node_name(n: &Node) -> (r: Option<String>)
    ensures
        match r {
            Some(s) => node_var(n@) == Some(s@),
            None => node_var(n@) is None,
        },
{
    match n {
        Node::Variable(v) => Some(v.clone()),
        Node::Blank(l) => {
            let mut s: String = String::new();
            s.push_str("__bn_");
            s.push_str(l.as_str());
            assert(s@ =~= "__bn_"@ + l@);
            Some(s)
        },
        Node::Known(_, _) => None,
    }
}

/// The identifier of a known term.
pub fn node_lookup(dict: &Dictionary, n: &Node) -> (r: Option<u32>)
    requires
        dict.wf(),
    ensures
        r == node_id(dict.keys(), n@),
{
    match n {
        Node::Known(v, t) => dict.lookup_term(v.as_str(), t),
        _ => None,
    }
}

/// One row for each node.
pub open spec fn singles(nodes: Seq<u32>) -> Seq<Seq<u32>> {
    Seq::new(nodes.len(), |i: int| seq![nodes[i]])
}

/// The pairs of `s` with each of the nodes.
pub open spec fn pairs_from(s: u32, nodes: Seq<u32>) -> Seq<Seq<u32>> {
    Seq::new(nodes.len(), |i: int| seq![s, nodes[i]])
}

/// The related pairs that begin at one of the starts, in order.
pub open spec fn pair_rows(r: spec_fn(u32, u32) -> bool, starts: Seq<u32>) -> Seq<Seq<u32>>
    decreases starts.len(),
{
    if starts.len() == 0 {
        Seq::empty()
    } else {
        pair_rows(r, starts.drop_last()) + pairs_from(
            starts.last(),
            in_order(image(r, set![starts.last()], true)),
        )
    }
}

/// The nodes that are related to themselves, in order.
pub open spec fn loop_rows(r: spec_fn(u32, u32) -> bool, starts: Seq<u32>) -> Seq<Seq<u32>>
    decreases starts.len(),
{
    if starts.len() == 0 {
        Seq::empty()
    } else if r(starts.last(), starts.last()) {
        loop_rows(r, starts.drop_last()).push(seq![starts.last()])
    } else {
        loop_rows(r, starts.drop_last())
    }
}

/// The nodes of the store, in order.
pub open spec fn all_nodes(index: Permutations) -> Seq<u32> {
    in_order(index.subject_keys().union(index.object_keys()))
}

/// What a path pattern gives, however many rows it takes.
pub open spec fn path_table(
    index: Permutations,
    keys: Seq<Seq<char>>,
    s: NodeView,
    p: PathView,
    o: NodeView,
) -> Table {
    let r = relation(index.triples(), keys, p);
    match (node_var(s), node_var(o)) {
        (None, None) => Table {
            vars: Seq::empty(),
            rows: match (node_id(keys, s), node_id(keys, o)) {
                (Some(a), Some(b)) => if r(a, b) {
                    seq![Seq::empty()]
                } else {
                    Seq::empty()
                },
                _ => Seq::empty(),
            },
        },
        (None, Some(v)) => Table {
            vars: seq![v],
            rows: match node_id(keys, s) {
                Some(a) => singles(in_order(image(r, set![a], true))),
                None => Seq::empty(),
            },
        },
        (Some(v), None) => Table {
            vars: seq![v],
            rows: match node_id(keys, o) {
                Some(b) => singles(in_order(image(r, set![b], false))),
                None => Seq::empty(),
            },
        },
        (Some(v), Some(w)) => if v == w {
            Table { vars: seq![v], rows: loop_rows(r, all_nodes(index)) }
        } else {
            Table { vars: seq![v, w], rows: pair_rows(r, all_nodes(index)) }
        },
    }
}

/// What a path pattern gives when at most `cap` rows are allowed. A pattern
/// between two known terms gives at most one row, and is always allowed.
pub open spec fn path_outcome(
    index: Permutations,
    keys: Seq<Seq<char>>,
    s: NodeView,
    p: PathView,
    o: NodeView,
    cap: usize,
) -> Outcome {
    let t = path_table(index, keys, s, p, o);
    if node_var(s) is None && node_var(o) is None {
        Ok(t)
    } else {
        within(t, cap)
    }
}

fn one_node(x: u32) -> (r: Vec<u32>)
    ensures
        members(r@) == set![x],
{
    let mut r: Vec<u32> = Vec::new();
    r.push(x);
    assert(r@[0] == x);
    assert(members(r@) =~= set![x]);
    r
}

/// One endpoint known: the reached nodes as a column.
fn path_from_bound(
    store: &TripleStore,
    path: &PathExpr,
    bound: u32,
    var: String,
    forward: bool,
    cap: usize,
) -> (res: Result<Solutions, String>)
    requires
        store.wf(),
    ensures
        outcome(res) == within(
            Table {
                vars: seq![var@],
                rows: singles(
                    in_order(
                        image(
                            relation(store.triples(), store.dict.keys(), path.view()),
                            set![bound],
                            forward,
                        ),
                    ),
                ),
            },
            cap,
        ),
        res is Ok ==> (res->Ok_0).wf(),
{
    let from: Vec<u32> = one_node(bound);
    let reached: Vec<u32> = step(store, path, &from, forward);
    if reached.len() > cap {
        return Err(op_too_large(cap));
    }
    let mut rows: RowBlock = RowBlock::new(1);
    let mut i: usize = 0;
    assert(rows@ =~= singles(reached@.take(0)));
    while i < reached.len()
        invariant
            i <= reached@.len(),
            reached@.len() <= usize::MAX,
            rows.wf(),
            rows.width() == 1,
            rows@ == singles(reached@.take(i as int)),
        decreases reached@.len() - i,
    {
        let row: [u32; 1] = [reached[i]];
        rows.push_row(&row);
        proof {
            assert(row@ =~= seq![reached@[i as int]]);
            assert(reached@.take(i + 1) =~= reached@.take(i as int).push(reached@[i as int]));
            assert(rows@ =~= singles(reached@.take(i + 1)));
        }
        i += 1;
    }
    assert(reached@.take(i as int) =~= reached@);
    let mut vars: Vec<String> = Vec::new();
    vars.push(var);
    let t: Solutions = Solutions { vars, rows };
    assert(t@.vars =~= seq![var@]);
    Ok(t)
}

/// Both endpoints known: a row without columns where the path connects them.
fn path_existence(store: &TripleStore, path: &PathExpr, s: u32, o: u32) -> (t: Solutions)
    requires
        store.wf(),
    ensures
        t.wf(),
        t@ == (Table {
            vars: Seq::empty(),
            rows: if relation(store.triples(), store.dict.keys(), path.view())(s, o) {
                seq![Seq::empty()]
            } else {
                Seq::empty()
            },
        }),
{
    let ghost r = relation(store.triples(), store.dict.keys(), path.view());
    let from: Vec<u32> = one_node(s);
    let reached: Vec<u32> = step(store, path, &from, true);
    let mut rows: RowBlock = RowBlock::new(0);
    let hit: Result<usize, usize> = crate::sorted::find(reached.as_slice(), o);
    proof {
        assert(members(reached@).contains(o) <==> edge(r, true, s, o)) by {
            assert(set![s].contains(s));
        }
    }
    if hit.is_ok() {
        let row: [u32; 0] = [];
        assert(row@ =~= Seq::<u32>::empty());
        rows.push_row(&row);
        assert(rows@ =~= seq![Seq::<u32>::empty()]);
    } else {
        assert(rows@ =~= Seq::<Seq<u32>>::empty());
    }
    let t: Solutions = Solutions { vars: Vec::new(), rows };
    assert(t@.vars =~= Seq::<Seq<char>>::empty());
    t
}

proof fn lemma_pair_rows_grow(r: spec_fn(u32, u32) -> bool, starts: Seq<u32>, i: int)
    requires
        0 <= i <= starts.len(),
    ensures
        pair_rows(r, starts.take(i)).len() <= pair_rows(r, starts).len(),
        loop_rows(r, starts.take(i)).len() <= loop_rows(r, starts).len(),
    decreases starts.len(),
{
    if i < starts.len() {
        lemma_pair_rows_grow(r, starts.drop_last(), i);
        assert(starts.drop_last().take(i) =~= starts.take(i));
    } else {
        assert(starts.take(i) =~= starts);
    }
}

/// Appends the pairs of `s` with each of the nodes, or says that `cap` rows are
/// not enough.
fn push_pairs(rows: &mut RowBlock, s: u32, nodes: &Vec<u32>, cap: usize) -> (ok: bool)
    requires
        old(rows).wf(),
        old(rows).width() == 2,
        old(rows)@.len() <= cap,
    ensures
        final(rows).wf(),
        final(rows).width() == 2,
        ok == (old(rows)@.len() + nodes@.len() <= cap),
        ok ==> final(rows)@ == old(rows)@ + pairs_from(s, nodes@),
{
    let ghost start = rows@;
    let mut i: usize = 0;
    assert(rows@ =~= start + pairs_from(s, nodes@.take(0)));
    while i < nodes.len()
        invariant
            start == old(rows)@,
            i <= nodes@.len(),
            rows.wf(),
            rows.width() == 2,
            rows@ == start + pairs_from(s, nodes@.take(i as int)),
            rows@.len() <= cap,
        decreases nodes@.len() - i,
    {
        if rows.n_rows() >= cap {
            return false;
        }
        let row: [u32; 2] = [s, nodes[i]];
        rows.push_row(&row);
        proof {
            assert(row@ =~= seq![s, nodes@[i as int]]);
            assert(nodes@.take(i + 1) =~= nodes@.take(i as int).push(nodes@[i as int]));
            assert(rows@ =~= start + pairs_from(s, nodes@.take(i + 1)));
        }
        i += 1;
    }
    assert(nodes@.take(i as int) =~= nodes@);
    true
}

/// Both endpoints open: every connected pair, from every node of the store.
fn path_both_vars(
    store: &TripleStore,
    path: &PathExpr,
    sv: String,
    ov: String,
    cap: usize,
) -> (res: Result<Solutions, String>)
    requires
        store.wf(),
    ensures
        ({
            let r = relation(store.triples(), store.dict.keys(), path.view());
            outcome(res) == within(
                if sv@ == ov@ {
                    Table { vars: seq![sv@], rows: loop_rows(r, all_nodes(store.index)) }
                } else {
                    Table { vars: seq![sv@, ov@], rows: pair_rows(r, all_nodes(store.index)) }
                },
                cap,
            )
        }),
        res is Ok ==> (res->Ok_0).wf(),
{
    let ghost r = relation(store.triples(), store.dict.keys(), path.view());
    let same: bool = same_text(sv.as_str(), ov.as_str());
    let subjects: Vec<u32> = store.distinct_subjects();
    let objects: Vec<u32> = store.distinct_objects();
    let starts: Vec<u32> = either(subjects, &objects);
    assert(starts@ == all_nodes(store.index));
    let width: usize = if same {
        1
    } else {
        2
    };
    let mut rows: RowBlock = RowBlock::new(width);
    let mut i: usize = 0;
    while i < starts.len()
        invariant
            store.wf(),
            r == relation(store.triples(), store.dict.keys(), path.view()),
            i <= starts@.len(),
            width == (if same {
                1usize
            } else {
                2usize
            }),
            rows.wf(),
            rows.width() == width,
            rows@.len() <= cap,
            same ==> rows@ == loop_rows(r, starts@.take(i as int)),
            !same ==> rows@ == pair_rows(r, starts@.take(i as int)),
            starts@ == all_nodes(store.index),
            same == (sv@ == ov@),
        decreases starts@.len() - i,
    {
        let s: u32 = starts[i];
        proof {
            assert(starts@.take(i + 1).drop_last() =~= starts@.take(i as int));
            lemma_pair_rows_grow(r, starts@, i + 1);
        }
        if same {
            let here: Solutions = path_existence(store, path, s, s);
            if here.rows.n_rows() > 0 {
                if rows.n_rows() >= cap {
                    return Err(op_too_large(cap));
                }
                let row: [u32; 1] = [s];
                rows.push_row(&row);
                assert(row@ =~= seq![s]);
            }
        } else {
            let from: Vec<u32> = one_node(s);
            let reached: Vec<u32> = step(store, path, &from, true);
            let ok: bool = push_pairs(&mut rows, s, &reached, cap);
            if !ok {
                return Err(op_too_large(cap));
            }
        }
        i += 1;
    }
    assert(starts@.take(i as int) =~= starts@);
    let mut vars: Vec<String> = Vec::new();
    let ghost v = sv@;
    let ghost w = ov@;
    vars.push(sv);
    if !same {
        vars.push(ov);
    }
    let t: Solutions = Solutions { vars, rows };
    proof {
        if same {
            assert(t@.vars =~= seq![v]);
        } else {
            assert(t@.vars =~= seq![v, w]);
        }
    }
    Ok(t)
}

/// A table with the given column and no rows.
fn empty_column(var: String) -> (t: Solutions)
    ensures
        t.wf(),
        t@ == (Table { vars: seq![var@], rows: Seq::empty() }),
{
    let ghost v = var@;
    let mut vars: Vec<String> = Vec::new();
    vars.push(var);
    let t: Solutions = Solutions { vars, rows: RowBlock::new(1) };
    assert(t@.vars =~= seq![v]);
    assert(t@.rows =~= Seq::<Seq<u32>>::empty());
    t
}

/// The solutions of a path pattern. A known term that the dictionary does not
/// have gives no rows.
pub fn eval_path(
    store: &TripleStore,
    subject: &Node,
    path: &PathExpr,
    object: &Node,
    cap: usize,
) -> (res: Result<Solutions, String>)
    requires
        store.wf(),
    ensures
        outcome(res) == path_outcome(
            store.index,
            store.dict.keys(),
            subject@,
            path.view(),
            object@,
            cap,
        ),
        res is Ok ==> (res->Ok_0).wf(),
{
    let s_var: Option<String> = node_name(subject);
    let o_var: Option<String> = node_name(object);
    match s_var {
        Some(sv) => match o_var {
            Some(ov) => path_both_vars(store, path, sv, ov, cap),
            None => match node_lookup(&store.dict, object) {
                Some(o) => path_from_bound(store, path, o, sv, false, cap),
                None => Ok(empty_column(sv)),
            },
        },
        None => match o_var {
            Some(ov) => match node_lookup(&store.dict, subject) {
                Some(s) => path_from_bound(store, path, s, ov, true, cap),
                None => Ok(empty_column(ov)),
            },
            None => match (node_lookup(&store.dict, subject), node_lookup(&store.dict, object)) {
                (Some(s), Some(o)) => Ok(path_existence(store, path, s, o)),
                _ => {
                    let t: Solutions = Solutions { vars: Vec::new(), rows: RowBlock::new(0) };
                    assert(t@.vars =~= Seq::<Seq<char>>::empty());
                    assert(t@.rows =~= Seq::<Seq<u32>>::empty());
                    Ok(t)
                },
            },
        },
    }
}

} // verus!
