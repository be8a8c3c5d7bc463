//! What property paths mean: which nodes each kind of path connects.

use crate::hypertrie::csr::IdTriple;
use crate::hypertrie::dictionary::{term_key, TermKind};
use crate::hypertrie::permutations::Permutations;
use crate::sorted::{in_order, increasing, lemma_in_order_of};
use crate::sparql::algebra::{NodeView, PathView};
use crate::sparql::paths::{
    all_nodes, chain, composed, excluded, image, iri_id, linked, loop_rows, node_id, node_var,
    pair_rows, pairs_from, path_table, relation, repeated, singles,
};
use crate::sparql::pattern_laws::lemma_ids_finite;
use vstd::prelude::*;

verus! {

/// The predicate has this IRI.
pub open spec fn is_iri_of(keys: Seq<Seq<char>>, iri: Seq<char>, p: u32) -> bool {
    p < keys.len() && keys[p as int] == term_key(iri, TermKind::Iri)
}

/// A walk along a path, node by node, from `a` to `b`.
pub open spec fn is_walk(
    set: Set<IdTriple>,
    keys: Seq<Seq<char>>,
    p: PathView,
    nodes: Seq<u32>,
    a: u32,
    b: u32,
) -> bool {
    &&& nodes.len() > 0
    &&& nodes[0] == a
    &&& nodes.last() == b
    &&& forall|i: int| 0 <= i < nodes.len() - 1 ==> #[trigger] linked(set, keys, p, nodes[i], nodes[i + 1])
}

proof fn lemma_iri(keys: Seq<Seq<char>>, iri: Seq<char>, p: u32)
    requires
        keys.no_duplicates(),
        keys.len() <= u32::MAX,
    ensures
        iri_id(keys, iri) == Some(p) <==> is_iri_of(keys, iri, p),
{
    let key = term_key(iri, TermKind::Iri);
    if keys.contains(key) {
        let i = keys.index_of(key);
        assert(keys[i] == key);
        if is_iri_of(keys, iri, p) {
            assert(i == p);
        }
    }
    if is_iri_of(keys, iri, p) {
        assert(keys.contains(key));
    }
}

/// A link connects what is stored under its predicate, in the direction of the triple.
pub proof fn law_link(set: Set<IdTriple>, keys: Seq<Seq<char>>, iri: Seq<char>, a: u32, b: u32)
    requires
        keys.no_duplicates(),
        keys.len() <= u32::MAX,
    ensures
        linked(set, keys, PathView::Link(iri), a, b) <==> exists|p: u32|
            is_iri_of(keys, iri, p) && #[trigger] set.contains((a, p, b)),
{
    if let Some(p) = iri_id(keys, iri) {
        lemma_iri(keys, iri, p);
    }
    if exists|p: u32| is_iri_of(keys, iri, p) && #[trigger] set.contains((a, p, b)) {
        let p = choose|p: u32| is_iri_of(keys, iri, p) && #[trigger] set.contains((a, p, b));
        lemma_iri(keys, iri, p);
    }
}

/// A path backward connects what the path connects the other way round.
pub proof fn law_reverse(set: Set<IdTriple>, keys: Seq<Seq<char>>, x: PathView, a: u32, b: u32)
    ensures
        linked(set, keys, PathView::Reverse(Box::new(x)), a, b) <==> linked(set, keys, x, b, a),
{
}

/// A sequence goes along its first path to some node, and from there along its second.
pub proof fn law_sequence(set: Set<IdTriple>, keys: Seq<Seq<char>>, x: PathView, y: PathView, a: u32, b: u32)
    ensures
        linked(set, keys, PathView::Sequence(Box::new(x), Box::new(y)), a, b) <==> exists|c: u32| #[trigger]
            linked(set, keys, x, a, c) && linked(set, keys, y, c, b),
{
    let r = relation(set, keys, x);
    let q = relation(set, keys, y);
    if composed(r, q, a, b) {
        let c = choose|c: u32| #[trigger] r(a, c) && q(c, b);
        assert(linked(set, keys, x, a, c) && linked(set, keys, y, c, b));
    }
    if exists|c: u32| #[trigger] linked(set, keys, x, a, c) && linked(set, keys, y, c, b) {
        let c = choose|c: u32| #[trigger] linked(set, keys, x, a, c) && linked(set, keys, y, c, b);
        assert(r(a, c) && q(c, b));
    }
}

/// An alternative connects what one of its paths connects.
pub proof fn law_alternative(
    set: Set<IdTriple>,
    keys: Seq<Seq<char>>,
    x: PathView,
    y: PathView,
    a: u32,
    b: u32,
)
    ensures
        linked(set, keys, PathView::Alternative(Box::new(x), Box::new(y)), a, b) <==> linked(
            set,
            keys,
            x,
            a,
            b,
        ) || linked(set, keys, y, a, b),
{
}

/// An optional path connects every node with itself, and what the path connects.
pub proof fn law_zero_or_one(set: Set<IdTriple>, keys: Seq<Seq<char>>, x: PathView, a: u32, b: u32)
    ensures
        linked(set, keys, PathView::ZeroOrOne(Box::new(x)), a, b) <==> a == b || linked(
            set,
            keys,
            x,
            a,
            b,
        ),
{
}

/// A repeated path connects what a walk along the path connects; with `+` the walk has a
/// step, with `*` it may have none.
pub proof fn law_repeated(set: Set<IdTriple>, keys: Seq<Seq<char>>, x: PathView, a: u32, b: u32)
    ensures
        linked(set, keys, PathView::ZeroOrMore(Box::new(x)), a, b) <==> exists|nodes: Seq<u32>| #[trigger]
            is_walk(set, keys, x, nodes, a, b),
        linked(set, keys, PathView::OneOrMore(Box::new(x)), a, b) <==> exists|nodes: Seq<u32>| #[trigger]
            is_walk(set, keys, x, nodes, a, b) && nodes.len() > 1,
{
    let r = relation(set, keys, x);
    if repeated(r, 0, a, b) {
        let n = choose|n: nat| n >= 0 && chain(r, n, a, b);
        lemma_chain_walk(set, keys, x, n, a, b);
    }
    if repeated(r, 1, a, b) {
        let n = choose|n: nat| n >= 1 && chain(r, n, a, b);
        lemma_chain_walk(set, keys, x, n, a, b);
    }
    assert forall|nodes: Seq<u32>| #[trigger] is_walk(set, keys, x, nodes, a, b) implies chain(
        r,
        (nodes.len() - 1) as nat,
        a,
        b,
    ) by {
        lemma_walk_chain(set, keys, x, nodes, a, b);
    }
    if exists|nodes: Seq<u32>| #[trigger] is_walk(set, keys, x, nodes, a, b) && nodes.len() > 1 {
        let nodes = choose|nodes: Seq<u32>| #[trigger] is_walk(set, keys, x, nodes, a, b) && nodes.len() > 1;
        assert(chain(r, (nodes.len() - 1) as nat, a, b));
        assert(repeated(r, 1, a, b));
    }
    if exists|nodes: Seq<u32>| #[trigger] is_walk(set, keys, x, nodes, a, b) {
        let nodes = choose|nodes: Seq<u32>| #[trigger] is_walk(set, keys, x, nodes, a, b);
        assert(chain(r, (nodes.len() - 1) as nat, a, b));
        assert(repeated(r, 0, a, b));
    }
}

proof fn lemma_chain_walk(set: Set<IdTriple>, keys: Seq<Seq<char>>, x: PathView, n: nat, a: u32, b: u32)
    requires
        chain(relation(set, keys, x), n, a, b),
    ensures
        exists|nodes: Seq<u32>| #[trigger] is_walk(set, keys, x, nodes, a, b) && nodes.len() == n + 1,
    decreases n,
{
    let r = relation(set, keys, x);
    if n == 0 {
        let nodes = seq![a];
        assert(is_walk(set, keys, x, nodes, a, b));
    } else {
        let c = choose|c: u32| #[trigger] r(a, c) && chain(r, (n - 1) as nat, c, b);
        lemma_chain_walk(set, keys, x, (n - 1) as nat, c, b);
        let rest = choose|nodes: Seq<u32>| #[trigger] is_walk(set, keys, x, nodes, c, b) && nodes.len() == n;
        let nodes = seq![a] + rest;
        assert forall|i: int| 0 <= i < nodes.len() - 1 implies #[trigger] linked(
            set,
            keys,
            x,
            nodes[i],
            nodes[i + 1],
        ) by {
            if i > 0 {
                assert(nodes[i] == rest[i - 1] && nodes[i + 1] == rest[i - 1 + 1]);
                assert(linked(set, keys, x, rest[i - 1], rest[i - 1 + 1]));
            } else {
                assert(nodes[1] == rest[0]);
            }
        }
        assert(is_walk(set, keys, x, nodes, a, b));
    }
}

proof fn lemma_walk_chain(
    set: Set<IdTriple>,
    keys: Seq<Seq<char>>,
    x: PathView,
    nodes: Seq<u32>,
    a: u32,
    b: u32,
)
    requires
        is_walk(set, keys, x, nodes, a, b),
    ensures
        chain(relation(set, keys, x), (nodes.len() - 1) as nat, a, b),
    decreases nodes.len(),
{
    let r = relation(set, keys, x);
    if nodes.len() > 1 {
        let rest = nodes.drop_first();
        assert forall|i: int| 0 <= i < rest.len() - 1 implies #[trigger] linked(
            set,
            keys,
            x,
            rest[i],
            rest[i + 1],
        ) by {
            assert(linked(set, keys, x, nodes[i + 1], nodes[i + 1 + 1]));
        }
        let z: int = 0;
        assert(linked(set, keys, x, nodes[z], nodes[z + 1]));
        lemma_walk_chain(set, keys, x, rest, nodes[1], b);
        assert(r(a, nodes[1]));
    }
}

/// A negated set connects what some stored triple connects whose predicate has none of the
/// listed IRIs.
pub proof fn law_negated(set: Set<IdTriple>, keys: Seq<Seq<char>>, iris: Seq<Seq<char>>, a: u32, b: u32)
    requires
        keys.no_duplicates(),
        keys.len() <= u32::MAX,
    ensures
        linked(set, keys, PathView::Negated(iris), a, b) <==> exists|p: u32| #[trigger]
            set.contains((a, p, b)) && forall|i: int|
                0 <= i < iris.len() ==> !is_iri_of(keys, #[trigger] iris[i], p),
{
    assert forall|p: u32| excluded(keys, iris, p) == !(forall|i: int|
        0 <= i < iris.len() ==> !is_iri_of(keys, #[trigger] iris[i], p)) by {
        if excluded(keys, iris, p) {
            let i = choose|i: int| 0 <= i < iris.len() && #[trigger] iri_id(keys, iris[i]) == Some(p);
            lemma_iri(keys, iris[i], p);
        }
        if exists|i: int| 0 <= i < iris.len() && is_iri_of(keys, #[trigger] iris[i], p) {
            let i = choose|i: int| 0 <= i < iris.len() && is_iri_of(keys, #[trigger] iris[i], p);
            lemma_iri(keys, iris[i], p);
        }
    }
    if linked(set, keys, PathView::Negated(iris), a, b) {
        let p = choose|p: u32| #[trigger] set.contains((a, p, b)) && !excluded(keys, iris, p);
        assert(set.contains((a, p, b)));
    }
}

// --- Each row once ---------------------------------------------------------------------------

proof fn lemma_increasing_once(s: Seq<u32>)
    requires
        increasing(s),
    ensures
        s.no_duplicates(),
{
}

proof fn lemma_in_order_once(s: Set<u32>)
    ensures
        in_order(s).no_duplicates(),
{
    lemma_ids_finite(s);
    lemma_in_order_of(s);
    lemma_increasing_once(in_order(s));
}

proof fn lemma_pairs_once(r: spec_fn(u32, u32) -> bool, starts: Seq<u32>)
    requires
        starts.no_duplicates(),
    ensures
        pair_rows(r, starts).no_duplicates(),
        forall|k: int|
            0 <= k < pair_rows(r, starts).len() ==> (#[trigger] pair_rows(r, starts)[k]).len() == 2
                && starts.contains(pair_rows(r, starts)[k][0]),
    decreases starts.len(),
{
    let all = pair_rows(r, starts);
    if starts.len() > 0 {
        let rest = starts.drop_last();
        let last = starts.last();
        lemma_pairs_once(r, rest);
        let before = pair_rows(r, rest);
        let ends = in_order(image(r, set![last], true));
        let own = pairs_from(last, ends);
        lemma_in_order_once(image(r, set![last], true));
        assert(all == before + own);
        assert(!rest.contains(last)) by {
            if rest.contains(last) {
                let k = choose|k: int| 0 <= k < rest.len() && rest[k] == last;
                assert(starts[k] == starts[starts.len() - 1]);
            }
        }
        assert forall|k: int| 0 <= k < all.len() implies (#[trigger] all[k]).len() == 2 && starts.contains(
            all[k][0],
        ) by {
            if k < before.len() {
                assert(all[k] == before[k]);
                let i = choose|i: int| 0 <= i < rest.len() && rest[i] == before[k][0];
                assert(starts[i] == before[k][0]);
            } else {
                assert(all[k] == own[k - before.len()]);
                assert(starts[starts.len() - 1] == all[k][0]);
            }
        }
        assert forall|i: int, j: int| 0 <= i < all.len() && 0 <= j < all.len() && i != j implies all[i]
            != all[j] by {
            if i < before.len() && j < before.len() {
                assert(all[i] == before[i] && all[j] == before[j]);
            } else if i >= before.len() && j >= before.len() {
                let m = i - before.len();
                let n = j - before.len();
                assert(all[i] == own[m] && all[j] == own[n]);
                assert(ends[m] != ends[n]);
                assert(own[m][1] == ends[m] && own[n][1] == ends[n]);
            } else if i < before.len() {
                assert(all[i] == before[i] && rest.contains(before[i][0]));
                assert(all[j] == own[j - before.len()] && all[j][0] == last);
            } else {
                assert(all[j] == before[j] && rest.contains(before[j][0]));
                assert(all[i] == own[i - before.len()] && all[i][0] == last);
            }
        }
    }
}

proof fn lemma_loops_once(r: spec_fn(u32, u32) -> bool, starts: Seq<u32>)
    requires
        starts.no_duplicates(),
    ensures
        loop_rows(r, starts).no_duplicates(),
        forall|k: int|
            0 <= k < loop_rows(r, starts).len() ==> (#[trigger] loop_rows(r, starts)[k]).len() == 1
                && starts.contains(loop_rows(r, starts)[k][0]),
    decreases starts.len(),
{
    let all = loop_rows(r, starts);
    if starts.len() > 0 {
        let rest = starts.drop_last();
        let last = starts.last();
        lemma_loops_once(r, rest);
        let before = loop_rows(r, rest);
        assert(!rest.contains(last)) by {
            if rest.contains(last) {
                let k = choose|k: int| 0 <= k < rest.len() && rest[k] == last;
                assert(starts[k] == starts[starts.len() - 1]);
            }
        }
        assert forall|k: int| 0 <= k < all.len() implies (#[trigger] all[k]).len() == 1 && starts.contains(
            all[k][0],
        ) by {
            if k < before.len() {
                assert(all[k] == before[k]);
                let i = choose|i: int| 0 <= i < rest.len() && rest[i] == before[k][0];
                assert(starts[i] == before[k][0]);
            } else {
                assert(starts[starts.len() - 1] == all[k][0]);
            }
        }
        assert forall|i: int, j: int| 0 <= i < all.len() && 0 <= j < all.len() && i != j implies all[i]
            != all[j] by {
            if i < before.len() {
                assert(rest.contains(before[i][0]));
            }
            if j < before.len() {
                assert(rest.contains(before[j][0]));
            }
        }
    }
}

/// A path pattern gives every solution once, however many ways lead there.
pub proof fn law_path_rows_once(index: Permutations, keys: Seq<Seq<char>>, s: NodeView, p: PathView, o: NodeView)
    ensures
        path_table(index, keys, s, p, o).rows.no_duplicates(),
{
    let t = path_table(index, keys, s, p, o);
    let r = relation(index.triples(), keys, p);
    match (node_var(s), node_var(o)) {
        (None, None) => {},
        (None, Some(_)) => {
            if let Some(a) = node_id(keys, s) {
                lemma_singles_once(image(r, set![a], true));
            }
        },
        (Some(_), None) => {
            if let Some(b) = node_id(keys, o) {
                lemma_singles_once(image(r, set![b], false));
            }
        },
        (Some(v), Some(w)) => {
            lemma_in_order_once(index.subject_keys().union(index.object_keys()));
            lemma_loops_once(r, all_nodes(index));
            lemma_pairs_once(r, all_nodes(index));
        },
    }
}

proof fn lemma_singles_once(s: Set<u32>)
    ensures
        singles(in_order(s)).no_duplicates(),
{
    let nodes = in_order(s);
    lemma_in_order_once(s);
    let rows = singles(nodes);
    assert forall|i: int, j: int| 0 <= i < rows.len() && 0 <= j < rows.len() && i != j implies rows[i]
        != rows[j] by {
        assert(rows[i][0] == nodes[i] && rows[j][0] == nodes[j]);
    }
}

} // verus!
