//! Basic graph patterns.

use crate::hypertrie::dictionary::Dictionary;
use crate::hypertrie::engine::{hybrid_fits, hybrid_rows, HybridEngine};
use crate::hypertrie::executor::{capped, stop_after, too_large_text};
use crate::hypertrie::permutations::Permutations;
use crate::hypertrie::planner::{
    merged_names, names, pattern_vars, GraphPattern, PatTerm, PatTriple, PatternTerm, TriplePattern,
};
use crate::hypertrie::query::TripleStore;
use crate::hypertrie::rows::RowBlock;
use crate::sparql::algebra::{texts, triples_view, Node, NodeView, Triple, TripleView};
use crate::sparql::paths::{node_id, node_lookup, node_name, node_var};
use crate::sparql::tables::{merge_vars, outcome, Outcome, Solutions, Table};
use vstd::prelude::*;

verus! {

/// A pattern position over identifiers; nothing for a term that the dictionary
/// does not have.
pub open spec fn node_term(keys: Seq<Seq<char>>, n: NodeView) -> Option<PatTerm> {
    match node_var(n) {
        Some(v) => Some(PatTerm::Variable(v)),
        None => match node_id(keys, n) {
            Some(id) => Some(PatTerm::Bound(id)),
            None => None,
        },
    }
}

/// A triple pattern over identifiers.
pub open spec fn id_triple(keys: Seq<Seq<char>>, t: TripleView) -> Option<PatTriple> {
    match (node_term(keys, t.subject), node_term(keys, t.predicate), node_term(keys, t.object)) {
        (Some(subject), Some(predicate), Some(object)) => Some(
            PatTriple { subject, predicate, object },
        ),
        _ => None,
    }
}

/// The triple patterns over identifiers; nothing if a term is not in the
/// dictionary.
pub open spec fn id_triples(keys: Seq<Seq<char>>, ts: Seq<TripleView>) -> Option<Seq<PatTriple>>
    decreases ts.len(),
{
    if ts.len() == 0 {
        Some(Seq::empty())
    } else {
        match (id_triples(keys, ts.drop_last()), id_triple(keys, ts.last())) {
            (Some(before), Some(t)) => Some(before.push(t)),
            _ => None,
        }
    }
}

/// The variable at a position, if there is one.
pub open spec fn own_var(n: NodeView) -> Seq<Seq<char>> {
    match n {
        NodeView::Variable(v) => seq![v],
        _ => Seq::empty(),
    }
}

/// The variables of a triple pattern.
pub open spec fn own_vars(t: TripleView) -> Seq<Seq<char>> {
    own_var(t.subject) + own_var(t.predicate) + own_var(t.object)
}

/// The variables of a basic graph pattern, without its blank nodes.
pub open spec fn variables_of(ts: Seq<TripleView>) -> Seq<Seq<char>>
    decreases ts.len(),
{
    if ts.len() == 0 {
        Seq::empty()
    } else {
        merged_names(variables_of(ts.drop_last()), own_vars(ts.last()))
    }
}

/// What a basic graph pattern gives. A term that the dictionary does not have
/// leaves no solutions.
pub open spec fn bgp_outcome(
    index: Permutations,
    keys: Seq<Seq<char>>,
    ts: Seq<TripleView>,
    limit: Option<usize>,
    cap: usize,
) -> Outcome {
    match id_triples(keys, ts) {
        Some(ps) => if hybrid_fits(&index, ps, limit, cap) {
            Ok(
                Table {
                    vars: pattern_vars(ps),
                    rows: capped(hybrid_rows(&index, ps), stop_after(limit, cap)),
                },
            )
        } else {
            Err(too_large_text(cap as nat))
        },
        None => Ok(Table { vars: variables_of(ts), rows: Seq::empty() }),
    }
}

fn translate_node(dict: &Dictionary, n: &Node) -> (r: Option<PatternTerm>)
    requires
        dict.wf(),
    ensures
        match r {
            Some(t) => node_term(dict.keys(), n@) == Some(t@),
            None => node_term(dict.keys(), n@) is None,
        },
{
    match node_name(n) {
        Some(v) => Some(PatternTerm::Variable(v)),
        None => match node_lookup(dict, n) {
            Some(id) => Some(PatternTerm::Bound(id)),
            None => None,
        },
    }
}

proof fn lemma_unknown(keys: Seq<Seq<char>>, ts: Seq<TripleView>, i: int)
    requires
        0 <= i < ts.len(),
        id_triple(keys, ts[i]) is None,
    ensures
        id_triples(keys, ts) is None,
    decreases ts.len(),
{
    if i < ts.len() - 1 {
        lemma_unknown(keys, ts.drop_last(), i);
    }
}

/// A basic graph pattern over identifiers; nothing if a term is not in the
/// dictionary.
pub fn translate_bgp(bgp: &Vec<Triple>, dict: &Dictionary) -> (r: Option<GraphPattern>)
    requires
        dict.wf(),
    ensures
        match r {
            Some(g) => id_triples(dict.keys(), triples_view(bgp@)) == Some(g@),
            None => id_triples(dict.keys(), triples_view(bgp@)) is None,
        },
{
    let ghost ts = triples_view(bgp@);
    let ghost keys = dict.keys();
    let mut g: GraphPattern = GraphPattern { patterns: Vec::new() };
    let mut i: usize = 0;
    proof {
        assert(ts.take(0) =~= Seq::<TripleView>::empty());
        assert(g@ =~= Seq::<PatTriple>::empty());
    }
    while i < bgp.len()
        invariant
            dict.wf(),
            keys == dict.keys(),
            ts == triples_view(bgp@),
            i <= bgp@.len(),
            id_triples(keys, ts.take(i as int)) == Some(g@),
        decreases bgp@.len() - i,
    {
        let t: &Triple = &bgp[i];
        proof {
            assert(ts[i as int] == t@);
            assert(ts.take(i + 1).drop_last() =~= ts.take(i as int));
            if id_triple(keys, t@) is None {
                lemma_unknown(keys, ts, i as int);
            }
        }
        let subject: PatternTerm = match translate_node(dict, &t.subject) {
            Some(x) => x,
            None => {
                return None;
            },
        };
        let predicate: PatternTerm = match translate_node(dict, &t.predicate) {
            Some(x) => x,
            None => {
                return None;
            },
        };
        let object: PatternTerm = match translate_node(dict, &t.object) {
            Some(x) => x,
            None => {
                return None;
            },
        };
        let ghost before = g@;
        let tp: TriplePattern = TriplePattern { subject, predicate, object };
        g.patterns.push(tp);
        assert(g@ =~= before.push(tp@));
        i += 1;
    }
    assert(ts.take(i as int) =~= ts);
    Some(g)
}

fn push_var(vars: &mut Vec<String>, n: &Node)
    ensures
        texts(final(vars)@) == texts(old(vars)@) + own_var(n@),
{
    let ghost before = texts(vars@);
    if let Node::Variable(v) = n {
        vars.push(v.clone());
        assert(texts(vars@) =~= before + seq![v@]);
    } else {
        assert(texts(vars@) =~= before + Seq::<Seq<char>>::empty());
    }
}

/// The variables of a basic graph pattern, without its blank nodes.
pub fn variables_in_bgp(bgp: &Vec<Triple>) -> (vars: Vec<String>)
    ensures
        texts(vars@) == variables_of(triples_view(bgp@)),
{
    let ghost ts = triples_view(bgp@);
    let mut vars: Vec<String> = Vec::new();
    let mut i: usize = 0;
    proof {
        assert(ts.take(0) =~= Seq::<TripleView>::empty());
        assert(texts(vars@) =~= Seq::<Seq<char>>::empty());
    }
    while i < bgp.len()
        invariant
            ts == triples_view(bgp@),
            i <= bgp@.len(),
            texts(vars@) == variables_of(ts.take(i as int)),
        decreases bgp@.len() - i,
    {
        let mut own: Vec<String> = Vec::new();
        assert(texts(own@) =~= Seq::<Seq<char>>::empty());
        push_var(&mut own, &bgp[i].subject);
        push_var(&mut own, &bgp[i].predicate);
        push_var(&mut own, &bgp[i].object);
        proof {
            assert(ts[i as int] == bgp@[i as int]@);
            assert(ts.take(i + 1).drop_last() =~= ts.take(i as int));
            assert(texts(own@) =~= own_vars(ts[i as int]));
        }
        vars = merge_vars(&vars, &own);
        i += 1;
    }
    assert(ts.take(i as int) =~= ts);
    vars
}

fn copy_names(list: &Vec<&String>) -> (vars: Vec<String>)
    ensures
        texts(vars@) == names(list@),
{
    let mut vars: Vec<String> = Vec::new();
    let mut i: usize = 0;
    while i < list.len()
        invariant
            i <= list@.len(),
            texts(vars@) == names(list@).take(i as int),
        decreases list@.len() - i,
    {
        let ghost before = texts(vars@);
        vars.push(list[i].clone());
        assert(texts(vars@) =~= before.push(list@[i as int]@));
        i += 1;
        assert(texts(vars@) =~= names(list@).take(i as int));
    }
    assert(texts(vars@) =~= names(list@));
    vars
}

/// The columns of what a basic graph pattern gives.
pub open spec fn bgp_columns(keys: Seq<Seq<char>>, ts: Seq<TripleView>) -> Seq<Seq<char>> {
    match id_triples(keys, ts) {
        Some(ps) => pattern_vars(ps),
        None => variables_of(ts),
    }
}

/// The columns of what a basic graph pattern gives. No triple is read.
pub fn columns_of_bgp(bgp: &Vec<Triple>, dict: &Dictionary) -> (vars: Vec<String>)
    requires
        dict.wf(),
    ensures
        texts(vars@) == bgp_columns(dict.keys(), triples_view(bgp@)),
{
    match translate_bgp(bgp, dict) {
        Some(g) => {
            let order: Vec<&String> = g.variable_order();
            copy_names(&order)
        },
        None => variables_in_bgp(bgp),
    }
}

/// The solutions of a basic graph pattern; with a limit, only the first ones.
pub fn eval_bgp(bgp: &Vec<Triple>, store: &TripleStore, engine: &HybridEngine, limit: Option<usize>) -> (res:
    Result<Solutions, String>)
    requires
        store.wf(),
    ensures
        outcome(res) == bgp_outcome(
            store.index,
            store.dict.keys(),
            triples_view(bgp@),
            limit,
            engine.max_rows,
        ),
        res is Ok ==> (res->Ok_0).wf(),
{
    match translate_bgp(bgp, &store.dict) {
        Some(g) => {
            let order: Vec<&String> = g.variable_order();
            let vars: Vec<String> = copy_names(&order);
            match engine.execute_limited(store, &g, limit) {
                Ok(rows) => {
                    let t: Solutions = Solutions { vars, rows };
                    assert(t@.vars == pattern_vars(g@));
                    assert(t.vars@.len() == texts(t.vars@).len());
                    Ok(t)
                },
                Err(e) => Err(e),
            }
        },
        None => {
            let vars: Vec<String> = variables_in_bgp(bgp);
            let rows: RowBlock = RowBlock::new(vars.len());
            let t: Solutions = Solutions { vars, rows };
            assert(t@.rows =~= Seq::<Seq<u32>>::empty());
            Ok(t)
        },
    }
}

} // verus!
