//! The engine: cyclic patterns go to the worst-case optimal join, all others to
//! the greedy plan.

use crate::hypertrie::executor::{
    capped, execute_plan_limited, execute_wcoj_limited, plan_fits, plan_rows, stop_after,
    too_large_text, wcoj_fits, wcoj_or_plan_rows, RowBlock, DEFAULT_MAX_ROWS,
};
use crate::hypertrie::permutations::Permutations;
use crate::hypertrie::planner::{
    greedy, names, pattern_vars, triple_vars, ExecutionPlan, GraphPattern, PatTriple,
};
use crate::hypertrie::query::TripleStore;
use crate::text::{parse_usize, parsed_usize, same_text};
use vstd::prelude::*;

verus! {

/// The allowed number of rows: the setting if it is a number, else the default.
pub open spec fn max_rows_of(setting: Option<Seq<char>>) -> usize {
    match setting {
        Some(text) => match parsed_usize(text) {
            Some(n) => n,
            None => DEFAULT_MAX_ROWS,
        },
        None => DEFAULT_MAX_ROWS,
    }
}

/// The allowed number of result rows, from the text of the setting.
pub fn max_result_rows(setting: Option<&str>) -> (n: usize)
    ensures
        n == max_rows_of(
            match setting {
                Some(s) => Some(s@),
                None => None,
            },
        ),
{
    match setting {
        Some(text) => match parse_usize(text) {
            Some(n) => n,
            None => DEFAULT_MAX_ROWS,
        },
        None => DEFAULT_MAX_ROWS,
    }
}

// --- Cycles ----------------------------------------------------------------------

/// Two variables that occur in the same triple pattern.
pub type Edge = (Seq<char>, Seq<char>);

/// The edges of one triple pattern: its variables, pair by pair.
pub open spec fn triple_edges(t: PatTriple) -> Seq<Edge> {
    let vs = triple_vars(t);
    if vs.len() == 3 {
        seq![(vs[0], vs[1]), (vs[0], vs[2]), (vs[1], vs[2])]
    } else if vs.len() == 2 {
        seq![(vs[0], vs[1])]
    } else {
        Seq::empty()
    }
}

/// The edges of a graph pattern.
pub open spec fn pattern_edges(ps: Seq<PatTriple>) -> Seq<Edge>
    decreases ps.len(),
{
    if ps.len() == 0 {
        Seq::empty()
    } else {
        pattern_edges(ps.drop_last()) + triple_edges(ps.last())
    }
}

/// A way along the edges leads from `a` to `b`.
pub open spec fn joined(edges: Seq<Edge>, a: Seq<char>, b: Seq<char>) -> bool
    decreases edges.len(),
{
    if edges.len() == 0 {
        a == b
    } else {
        let rest = edges.drop_last();
        let (x, y) = edges.last();
        joined(rest, a, b) || (joined(rest, a, x) && joined(rest, y, b)) || (joined(rest, a, y) && joined(
            rest,
            x,
            b,
        ))
    }
}

/// Some edge joins variables that the edges before it already join.
pub open spec fn cyclic(edges: Seq<Edge>) -> bool
    decreases edges.len(),
{
    edges.len() > 0 && (cyclic(edges.drop_last()) || joined(
        edges.drop_last(),
        edges.last().0,
        edges.last().1,
    ))
}

/// Whether a graph pattern is cyclic. A single triple pattern never is.
pub open spec fn pattern_cyclic(ps: Seq<PatTriple>) -> bool {
    ps.len() >= 2 && cyclic(pattern_edges(ps))
}

/// `joined` is an equivalence.
pub proof fn lemma_joined(edges: Seq<Edge>, a: Seq<char>, b: Seq<char>, c: Seq<char>)
    ensures
        joined(edges, a, a),
        joined(edges, a, b) ==> joined(edges, b, a),
        joined(edges, a, b) && joined(edges, b, c) ==> joined(edges, a, c),
    decreases edges.len(),
{
    if edges.len() > 0 {
        let rest = edges.drop_last();
        let (x, y) = edges.last();
        lemma_joined(rest, a, b, c);
        lemma_joined(rest, a, x, b);
        lemma_joined(rest, a, y, b);
        lemma_joined(rest, x, b, x);
        lemma_joined(rest, y, b, y);
        lemma_joined(rest, a, x, c);
        lemma_joined(rest, a, y, c);
        lemma_joined(rest, x, b, c);
        lemma_joined(rest, y, b, c);
        lemma_joined(rest, b, x, c);
        lemma_joined(rest, b, y, c);
        lemma_joined(rest, x, b, y);
        lemma_joined(rest, y, b, x);
        lemma_joined(rest, a, b, x);
        lemma_joined(rest, a, b, y);
    }
}

/// Labels tell which variables the edges join.
spec fn labelled(vars: Seq<Seq<char>>, labels: Seq<usize>, edges: Seq<Edge>) -> bool {
    &&& labels.len() == vars.len()
    &&& forall|i: int, j: int|
        #![trigger labels[i], labels[j]]
        0 <= i < vars.len() && 0 <= j < vars.len() ==> ((labels[i] == labels[j]) <==> joined(
            edges,
            vars[i],
            vars[j],
        ))
}

/// Takes an edge: gives `false` if it joins what is joined already.
fn take_edge(
    vars: &Vec<&String>,
    labels: &mut Vec<usize>,
    a: &String,
    b: &String,
    Ghost(edges): Ghost<Seq<Edge>>,
) -> (fresh: bool)
    requires
        labelled(names(vars@), old(labels)@, edges),
        names(vars@).contains(a@),
        names(vars@).contains(b@),
    ensures
        fresh == !joined(edges, a@, b@),
        fresh ==> labelled(names(vars@), final(labels)@, edges.push((a@, b@))),
        final(labels)@.len() == old(labels)@.len(),
{
    let ghost vs = names(vars@);
    let ghost l0 = labels@;
    let i: usize = position(vars, a);
    let j: usize = position(vars, b);
    let from: usize = labels[j];
    let to: usize = labels[i];
    if from == to {
        return false;
    }
    let n: usize = vars.len();
    let mut k: usize = 0;
    while k < n
        invariant
            k <= n,
            n == labels@.len(),
            labels@.len() == l0.len(),
            forall|q: int| 0 <= q < k ==> #[trigger] labels@[q] == (if l0[q] == from {
                to
            } else {
                l0[q]
            }),
            forall|q: int| k <= q < n ==> #[trigger] labels@[q] == l0[q],
        decreases n - k,
    {
        if labels[k] == from {
            labels.set(k, to);
        }
        k += 1;
    }
    proof {
        let more = edges.push((a@, b@));
        assert(more.drop_last() =~= edges);
        assert forall|p: int, q: int|
            #![trigger labels@[p], labels@[q]]
            0 <= p < vs.len() && 0 <= q < vs.len() implies ((labels@[p] == labels@[q]) <==> joined(
            more,
            vs[p],
            vs[q],
        )) by {
            assert((l0[p] == l0[q]) <==> joined(edges, vs[p], vs[q]));
            assert((l0[p] == l0[i as int]) <==> joined(edges, vs[p], a@));
            assert((l0[p] == l0[j as int]) <==> joined(edges, vs[p], b@));
            assert((l0[i as int] == l0[q]) <==> joined(edges, a@, vs[q]));
            assert((l0[j as int] == l0[q]) <==> joined(edges, b@, vs[q]));
        }
    }
    true
}

/// Where a name stands.
fn position(vars: &Vec<&String>, name: &String) -> (i: usize)
    requires
        names(vars@).contains(name@),
    ensures
        i < vars@.len(),
        names(vars@)[i as int] == name@,
{
    let mut i: usize = 0;
    while i < vars.len()
        invariant
            i <= vars@.len(),
            names(vars@).contains(name@),
            forall|k: int| 0 <= k < i ==> #[trigger] names(vars@)[k] != name@,
        decreases vars@.len() - i,
    {
        if same_text(vars[i].as_str(), name.as_str()) {
            assert(names(vars@)[i as int] == name@);
            return i;
        }
        assert(names(vars@)[i as int] != name@);
        i += 1;
    }
    proof {
        let k = choose|k: int| 0 <= k < names(vars@).len() && names(vars@)[k] == name@;
        assert(names(vars@)[k] != name@);
    }
    0
}

proof fn lemma_cyclic_prefix(edges: Seq<Edge>, more: Seq<Edge>)
    requires
        cyclic(edges),
    ensures
        cyclic(edges + more),
    decreases more.len(),
{
    if more.len() == 0 {
        assert(edges + more =~= edges);
    } else {
        lemma_cyclic_prefix(edges, more.drop_last());
        assert((edges + more).drop_last() =~= edges + more.drop_last());
    }
}

proof fn lemma_edges_prefix(ps: Seq<PatTriple>, i: int) -> (more: Seq<Edge>)
    requires
        0 <= i <= ps.len(),
    ensures
        pattern_edges(ps) == pattern_edges(ps.take(i)) + more,
    decreases ps.len() - i,
{
    if i == ps.len() {
        assert(ps.take(i) =~= ps);
        assert(pattern_edges(ps) + Seq::<Edge>::empty() =~= pattern_edges(ps));
        Seq::empty()
    } else {
        let m = lemma_edges_prefix(ps, i + 1);
        assert(ps.take(i + 1).drop_last() =~= ps.take(i));
        let more = triple_edges(ps[i]) + m;
        assert(pattern_edges(ps) =~= pattern_edges(ps.take(i)) + more);
        more
    }
}

/// Whether the variables of a graph pattern form a cycle.
pub fn has_cycle(pattern: &GraphPattern) -> (r: bool)
    ensures
        r == pattern_cyclic(pattern@),
{
    let ghost ps = pattern@;
    if pattern.patterns.len() < 2 {
        return false;
    }
    let vars: Vec<&String> = pattern.variable_order();
    let ghost vs = names(vars@);
    let mut labels: Vec<usize> = Vec::new();
    let n: usize = vars.len();
    let mut k: usize = 0;
    while k < n
        invariant
            k <= n,
            labels@.len() == k,
            forall|q: int| 0 <= q < k ==> #[trigger] labels@[q] == q,
        decreases n - k,
    {
        labels.push(k);
        k += 1;
    }
    proof {
        crate::hypertrie::planner::law_pattern_vars(ps);
        assert(vs.len() == vars@.len());
        assert(labelled(vs, labels@, Seq::empty()));
        assert(ps.take(0) =~= Seq::<PatTriple>::empty());
    }
    let mut i: usize = 0;
    while i < pattern.patterns.len()
        invariant
            ps == pattern@,
            ps.len() >= 2,
            i <= pattern.patterns@.len(),
            vs == names(vars@),
            vs == pattern_vars(ps),
            labelled(vs, labels@, pattern_edges(ps.take(i as int))),
            !cyclic(pattern_edges(ps.take(i as int))),
        decreases pattern.patterns@.len() - i,
    {
        let own: Vec<&String> = pattern.patterns[i].variables();
        let ghost tv = names(own@);
        let ghost es = pattern_edges(ps.take(i as int));
        let ghost te = triple_edges(ps[i as int]);
        proof {
            assert(ps[i as int] == pattern.patterns@[i as int]@);
            assert(ps.take(i + 1).drop_last() =~= ps.take(i as int));
            crate::hypertrie::planner::law_pattern_vars(ps);
            assert forall|q: int| 0 <= q < tv.len() implies vs.contains(#[trigger] tv[q]) by {
                assert(triple_vars(ps[i as int]).contains(tv[q]));
                assert(crate::hypertrie::planner::mentions(ps, tv[q]));
            }
            assert(tv.len() == own@.len());
        }
        if own.len() == 2 {
            assert(own@[0]@ == tv[0] && own@[1]@ == tv[1]);
            assert(es + te =~= es.push((tv[0], tv[1])));
            assert((es + te).drop_last() =~= es);
            if !take_edge(&vars, &mut labels, own[0], own[1], Ghost(es)) {
                proof {
                    let more = lemma_edges_prefix(ps, i + 1);
                    lemma_cyclic_prefix(es + te, more);
                }
                return true;
            }
        } else if own.len() == 3 {
            let ghost e1 = es.push((tv[0], tv[1]));
            let ghost e2 = e1.push((tv[0], tv[2]));
            let ghost e3 = e2.push((tv[1], tv[2]));
            proof {
                assert(own@[0]@ == tv[0] && own@[1]@ == tv[1] && own@[2]@ == tv[2]);
                assert(e1.drop_last() =~= es);
                assert(e2.drop_last() =~= e1);
                assert(e3.drop_last() =~= e2);
                assert(es + te =~= e3);
                // Three variables of one triple always close a cycle.
                lemma_joined(e2, tv[1], tv[0], tv[2]);
                lemma_joined(e1, tv[1], tv[0], tv[1]);
                lemma_joined(e1, tv[0], tv[1], tv[0]);
                lemma_joined(e1, tv[2], tv[0], tv[1]);
                lemma_joined(es, tv[0], tv[1], tv[0]);
                lemma_joined(es, tv[1], tv[0], tv[1]);
                assert(joined(e1, tv[1], tv[0]));
                assert(joined(e2, tv[1], tv[2]));
                assert(cyclic(e3));
                let more = lemma_edges_prefix(ps, i + 1);
                lemma_cyclic_prefix(e3, more);
            }
            return true;
        } else {
            assert(es + te =~= es);
        }
        i += 1;
    }
    assert(ps.take(i as int) =~= ps);
    false
}

// --- Engine ------------------------------------------------------------------------

/// Picks the way of execution for a pattern.
#[derive(Debug, Clone, Copy, PartialEq, Eq, Structural)]
pub struct HybridEngine {
    /// More rows than this are an error.
    pub max_rows: usize,
}

/// All rows of a pattern, in the order of the chosen way of execution.
pub open spec fn hybrid_rows(index: &Permutations, ps: Seq<PatTriple>) -> Seq<Seq<u32>> {
    if pattern_cyclic(ps) {
        wcoj_or_plan_rows(index, ps)
    } else {
        plan_rows(index.triples(), ps, greedy(index, ps, ps.len()))
    }
}

/// Whether execution stays within the allowed number of rows.
pub open spec fn hybrid_fits(
    index: &Permutations,
    ps: Seq<PatTriple>,
    limit: Option<usize>,
    cap: usize,
) -> bool {
    if pattern_cyclic(ps) {
        wcoj_fits(index, ps, limit, cap)
    } else {
        plan_fits(index.triples(), ps, greedy(index, ps, ps.len()), limit, cap)
    }
}

impl Default for HybridEngine {
    fn default() -> (r: HybridEngine)
        ensures
            r.max_rows == DEFAULT_MAX_ROWS,
    {
        HybridEngine { max_rows: DEFAULT_MAX_ROWS }
    }
}

impl HybridEngine {
    /// An engine with the default bound on the number of rows.
    pub fn new() -> (r: HybridEngine)
        ensures
            r.max_rows == DEFAULT_MAX_ROWS,
    {
        HybridEngine { max_rows: DEFAULT_MAX_ROWS }
    }

    /// Executes a pattern; an error if there are too many rows.
    pub fn execute(&self, store: &TripleStore, pattern: &GraphPattern) -> (r: Result<RowBlock, String>)
        requires
            store.wf(),
        ensures
            match r {
                Ok(b) => hybrid_fits(&store.index, pattern@, None, self.max_rows) && b.wf() && b.width()
                    == pattern_vars(pattern@).len() && b@ == capped(
                    hybrid_rows(&store.index, pattern@),
                    stop_after(None, self.max_rows),
                ),
                Err(e) => !hybrid_fits(&store.index, pattern@, None, self.max_rows) && e@ == too_large_text(
                    self.max_rows as nat,
                ),
            },
    {
        self.execute_limited(store, pattern, None)
    }

    /// Like [`HybridEngine::execute`], but stops after `limit` rows.
    pub fn execute_limited(
        &self,
        store: &TripleStore,
        pattern: &GraphPattern,
        limit: Option<usize>,
    ) -> (r: Result<RowBlock, String>)
        requires
            store.wf(),
        ensures
            match r {
                Ok(b) => hybrid_fits(&store.index, pattern@, limit, self.max_rows) && b.wf() && b.width()
                    == pattern_vars(pattern@).len() && b@ == capped(
                    hybrid_rows(&store.index, pattern@),
                    stop_after(limit, self.max_rows),
                ),
                Err(e) => !hybrid_fits(&store.index, pattern@, limit, self.max_rows) && e@ == too_large_text(
                    self.max_rows as nat,
                ),
            },
    {
        if has_cycle(pattern) {
            execute_wcoj_limited(store, pattern, limit, self.max_rows)
        } else {
            let plan: ExecutionPlan = pattern.optimize(&store.index);
            execute_plan_limited(store, pattern, &plan, limit, self.max_rows)
        }
    }
}

} // verus!
