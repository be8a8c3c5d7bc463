//! Graph patterns and the order in which their triple patterns are joined.

use crate::hypertrie::stats::{estimate, estimate_cardinality, CardEstimator};
use crate::text::same_text;
use vstd::prelude::*;

verus! {

/// A position of a triple pattern, as text.
pub enum PatTerm {
    Bound(u32),
    Variable(Seq<char>),
}

/// A triple pattern, as text.
pub struct PatTriple {
    pub subject: PatTerm,
    pub predicate: PatTerm,
    pub object: PatTerm,
}

/// A position of a triple pattern: a known identifier or a named variable.
#[derive(Debug, PartialEq, Eq, Hash)]
pub enum PatternTerm {
    Bound(u32),
    Variable(String),
}

impl View for PatternTerm {
    type V = PatTerm;

    open spec fn view(&self) -> PatTerm {
        match self {
            PatternTerm::Bound(id) => PatTerm::Bound(*id),
            PatternTerm::Variable(name) => PatTerm::Variable(name@),
        }
    }
}

impl Clone for PatternTerm {
    fn clone(&self) -> (r: PatternTerm)
        ensures
            r@ == self@,
    {
        match self {
            PatternTerm::Bound(id) => PatternTerm::Bound(*id),
            PatternTerm::Variable(name) => PatternTerm::Variable(name.clone()),
        }
    }
}

impl PatternTerm {
    pub fn is_variable(&self) -> (r: bool)
        ensures
            r == self@ is Variable,
    {
        match self {
            PatternTerm::Variable(_) => true,
            PatternTerm::Bound(_) => false,
        }
    }

    pub fn variable_name(&self) -> (r: Option<&str>)
        ensures
            match r {
                Some(n) => self@ == PatTerm::Variable(n@),
                None => self@ is Bound,
            },
    {
        match self {
            PatternTerm::Variable(name) => Some(name.as_str()),
            PatternTerm::Bound(_) => None,
        }
    }
}

#[derive(Debug)]
pub struct TriplePattern {
    pub subject: PatternTerm,
    pub predicate: PatternTerm,
    pub object: PatternTerm,
}

impl View for TriplePattern {
    type V = PatTriple;

    open spec fn view(&self) -> PatTriple {
        PatTriple { subject: self.subject@, predicate: self.predicate@, object: self.object@ }
    }
}

impl Clone for TriplePattern {
    fn clone(&self) -> (r: TriplePattern)
        ensures
            r@ == self@,
    {
        TriplePattern {
            subject: self.subject.clone(),
            predicate: self.predicate.clone(),
            object: self.object.clone(),
        }
    }
}

/// The name at a position, if it is a variable.
pub open spec fn term_vars(t: PatTerm) -> Seq<Seq<char>> {
    match t {
        PatTerm::Variable(name) => seq![name],
        PatTerm::Bound(_) => Seq::empty(),
    }
}

/// The variables of a triple pattern, in the order of its positions.
pub open spec fn triple_vars(t: PatTriple) -> Seq<Seq<char>> {
    term_vars(t.subject) + term_vars(t.predicate) + term_vars(t.object)
}

/// The names behind a list of strings.
pub open spec fn names(v: Seq<&String>) -> Seq<Seq<char>> {
    v.map_values(|s: &String| s@)
}

impl TriplePattern {
    /// The variables, in the order of their positions.
    pub fn variables(&self) -> (vars: Vec<&String>)
        ensures
            names(vars@) == triple_vars(self@),
            vars@.len() <= 3,
    {
        let mut vars: Vec<&String> = Vec::new();
        match &self.subject {
            PatternTerm::Variable(n) => {
                vars.push(n);
            },
            PatternTerm::Bound(_) => {},
        }
        match &self.predicate {
            PatternTerm::Variable(n) => {
                vars.push(n);
            },
            PatternTerm::Bound(_) => {},
        }
        match &self.object {
            PatternTerm::Variable(n) => {
                vars.push(n);
            },
            PatternTerm::Bound(_) => {},
        }
        assert(names(vars@) =~= triple_vars(self@));
        vars
    }
}

/// A list of triple patterns that must hold together.
#[derive(Debug)]
pub struct GraphPattern {
    pub patterns: Vec<TriplePattern>,
}

impl View for GraphPattern {
    type V = Seq<PatTriple>;

    open spec fn view(&self) -> Seq<PatTriple> {
        self.patterns@.map_values(|t: TriplePattern| t@)
    }
}

/// Appends the names that are not there yet, in order.
pub open spec fn merged_names(seen: Seq<Seq<char>>, more: Seq<Seq<char>>) -> Seq<Seq<char>>
    decreases more.len(),
{
    if more.len() == 0 {
        seen
    } else {
        let before = merged_names(seen, more.drop_last());
        if before.contains(more.last()) {
            before
        } else {
            before.push(more.last())
        }
    }
}

/// The variables of a graph pattern, in the order of their first appearance.
pub open spec fn pattern_vars(ps: Seq<PatTriple>) -> Seq<Seq<char>>
    decreases ps.len(),
{
    if ps.len() == 0 {
        Seq::empty()
    } else {
        merged_names(pattern_vars(ps.drop_last()), triple_vars(ps.last()))
    }
}

/// Merging loses no name and adds none.
pub proof fn lemma_merged_names(seen: Seq<Seq<char>>, more: Seq<Seq<char>>)
    ensures
        forall|n: Seq<char>|
            #[trigger] merged_names(seen, more).contains(n) <==> seen.contains(n) || more.contains(n),
        seen.no_duplicates() ==> merged_names(seen, more).no_duplicates(),
    decreases more.len(),
{
    if more.len() > 0 {
        let rest = more.drop_last();
        let last = more.last();
        let before = merged_names(seen, rest);
        lemma_merged_names(seen, rest);
        assert(more =~= rest.push(last));
        assert forall|n: Seq<char>| #[trigger] merged_names(seen, more).contains(n) <==> seen.contains(
            n,
        ) || more.contains(n) by {
            lemma_push_name(rest, last, n);
            lemma_push_name(before, last, n);
        }
    }
}

proof fn lemma_push_name(s: Seq<Seq<char>>, v: Seq<char>, x: Seq<char>)
    ensures
        s.push(v).contains(x) <==> s.contains(x) || x == v,
{
    let t = s.push(v);
    if s.contains(x) {
        let i = choose|i: int| 0 <= i < s.len() && s[i] == x;
        assert(t[i] == x);
    }
    if x == v {
        assert(t[s.len() as int] == x);
    }
    if t.contains(x) {
        let i = choose|i: int| 0 <= i < t.len() && t[i] == x;
        if i < s.len() {
            assert(s[i] == x);
        }
    }
}

/// Whether one of the patterns has the variable.
pub open spec fn mentions(ps: Seq<PatTriple>, name: Seq<char>) -> bool {
    exists|i: int| 0 <= i < ps.len() && triple_vars(#[trigger] ps[i]).contains(name)
}

/// The variables of a graph pattern are those of its triple patterns, each once.
pub proof fn law_pattern_vars(ps: Seq<PatTriple>)
    ensures
        forall|n: Seq<char>| #[trigger] pattern_vars(ps).contains(n) <==> mentions(ps, n),
        pattern_vars(ps).no_duplicates(),
    decreases ps.len(),
{
    if ps.len() > 0 {
        let rest = ps.drop_last();
        law_pattern_vars(rest);
        lemma_merged_names(pattern_vars(rest), triple_vars(ps.last()));
        assert forall|n: Seq<char>| #[trigger] pattern_vars(ps).contains(n) <==> mentions(ps, n) by {
            if mentions(rest, n) {
                let i = choose|i: int|
                    0 <= i < rest.len() && triple_vars(#[trigger] rest[i]).contains(n);
                assert(ps[i] == rest[i]);
            }
            if mentions(ps, n) {
                let i = choose|i: int| 0 <= i < ps.len() && triple_vars(#[trigger] ps[i]).contains(n);
                if i < rest.len() {
                    assert(ps[i] == rest[i]);
                }
            }
            assert(ps[ps.len() - 1] == ps.last());
        }
    }
}

/// Whether a name is in the list.
fn has_name(list: &Vec<&String>, name: &String) -> (r: bool)
    ensures
        r == names(list@).contains(name@),
{
    let mut i: usize = 0;
    while i < list.len()
        invariant
            i <= list@.len(),
            forall|k: int| 0 <= k < i ==> #[trigger] names(list@)[k] != name@,
        decreases list@.len() - i,
    {
        if same_text(list[i].as_str(), name.as_str()) {
            assert(names(list@)[i as int] == name@);
            return true;
        }
        i += 1;
    }
    assert(names(list@).len() == list@.len());
    false
}

impl GraphPattern {
    /// The variables, in the order of their first appearance. Result rows have
    /// their columns in this order.
    pub fn variable_order(&self) -> (order: Vec<&String>)
        ensures
            names(order@) == pattern_vars(self@),
    {
        let mut order: Vec<&String> = Vec::new();
        let mut i: usize = 0;
        proof {
            assert(self@.take(0) =~= Seq::<PatTriple>::empty());
            assert(names(order@) =~= pattern_vars(self@.take(0)));
        }
        while i < self.patterns.len()
            invariant
                i <= self.patterns@.len(),
                names(order@) == pattern_vars(self@.take(i as int)),
            decreases self.patterns@.len() - i,
        {
            let vars: Vec<&String> = self.patterns[i].variables();
            let ghost seen = names(order@);
            let mut j: usize = 0;
            assert(names(vars@).take(0) =~= Seq::<Seq<char>>::empty());
            while j < vars.len()
                invariant
                    j <= vars@.len(),
                    names(order@) == merged_names(seen, names(vars@).take(j as int)),
                decreases vars@.len() - j,
            {
                let known: bool = has_name(&order, vars[j]);
                proof {
                    assert(names(vars@).take(j + 1).drop_last() =~= names(vars@).take(j as int));
                    assert(names(vars@).take(j + 1).last() == vars@[j as int]@);
                }
                if !known {
                    let ghost before = order@;
                    order.push(vars[j]);
                    assert(names(order@) =~= names(before).push(vars@[j as int]@));
                }
                j += 1;
            }
            proof {
                assert(names(vars@).take(j as int) =~= names(vars@));
                assert(self@.take(i + 1).drop_last() =~= self@.take(i as int));
                assert(self@.take(i + 1).last() == self.patterns@[i as int]@);
            }
            i += 1;
        }
        assert(self@.take(i as int) =~= self@);
        order
    }
}

#[derive(Debug, Clone, Copy, PartialEq, Eq, Structural)]
pub struct PlanStep {
    pub pattern_index: usize,
}

/// The order in which the triple patterns are joined.
#[derive(Debug)]
pub struct ExecutionPlan {
    pub steps: Vec<PlanStep>,
}

impl View for ExecutionPlan {
    type V = Seq<int>;

    open spec fn view(&self) -> Seq<int> {
        self.steps@.map_values(|s: PlanStep| s.pattern_index as int)
    }
}

impl ExecutionPlan {
    /// The patterns in the order in which they were given.
    pub fn naive(n: usize) -> (plan: ExecutionPlan)
        ensures
            plan@ == Seq::new(n as nat, |i: int| i),
    {
        let mut steps: Vec<PlanStep> = Vec::new();
        let mut i: usize = 0;
        while i < n
            invariant
                i <= n,
                steps@.len() == i,
                forall|k: int| 0 <= k < i ==> (#[trigger] steps@[k]).pattern_index == k,
            decreases n - i,
        {
            steps.push(PlanStep { pattern_index: i });
            i += 1;
        }
        let plan: ExecutionPlan = ExecutionPlan { steps };
        assert(plan@ =~= Seq::new(n as nat, |k: int| k));
        plan
    }
}

// --- The greedy order --------------------------------------------------------

/// Whether two triple patterns have a variable in common.
pub open spec fn share_variable(a: PatTriple, b: PatTriple) -> bool {
    exists|v: Seq<char>| triple_vars(a).contains(v) && #[trigger] triple_vars(b).contains(v)
}

/// The estimated cost of pattern `i`.
pub open spec fn cost<E: CardEstimator>(est: &E, ps: Seq<PatTriple>, i: int) -> usize {
    estimate(est, ps[i].subject, ps[i].predicate, ps[i].object)
}

/// Whether pattern `i` is connected to a pattern that is planned already.
pub open spec fn connected(ps: Seq<PatTriple>, steps: Seq<int>, i: int) -> bool {
    exists|k: int| 0 <= k < steps.len() && share_variable(ps[i], ps[#[trigger] steps[k]])
}

/// Whether pattern `i` may be planned next. In the first round it must also be
/// connected to what is planned.
pub open spec fn eligible(ps: Seq<PatTriple>, steps: Seq<int>, must_connect: bool, i: int) -> bool {
    !steps.contains(i) && (must_connect ==> connected(ps, steps, i))
}

/// The cheapest eligible pattern among the first `n`, the earliest of equals.
/// Nothing if there is none that costs less than the largest estimate.
pub open spec fn cheapest<E: CardEstimator>(
    est: &E,
    ps: Seq<PatTriple>,
    steps: Seq<int>,
    must_connect: bool,
    n: int,
) -> Option<int>
    decreases n,
{
    if n <= 0 {
        None
    } else {
        let before = cheapest(est, ps, steps, must_connect, n - 1);
        let bar = match before {
            Some(k) => cost(est, ps, k),
            None => usize::MAX,
        };
        if eligible(ps, steps, must_connect, n - 1) && cost(est, ps, n - 1) < bar {
            Some(n - 1)
        } else {
            before
        }
    }
}

/// The pattern that comes after the planned ones: the cheapest connected one, or
/// else the cheapest one left.
pub open spec fn next_step<E: CardEstimator>(est: &E, ps: Seq<PatTriple>, steps: Seq<int>) -> int {
    match cheapest(est, ps, steps, true, ps.len() as int) {
        Some(k) => k,
        None => match cheapest(est, ps, steps, false, ps.len() as int) {
            Some(k) => k,
            None => 0,
        },
    }
}

/// The first `n` steps of the greedy order.
pub open spec fn greedy<E: CardEstimator>(est: &E, ps: Seq<PatTriple>, n: nat) -> Seq<int>
    decreases n,
{
    if n == 0 {
        Seq::empty()
    } else {
        let before = greedy(est, ps, (n - 1) as nat);
        before.push(next_step(est, ps, before))
    }
}

/// Pattern `k` is the first of the cheapest among the eligible ones.
pub open spec fn first_cheapest<E: CardEstimator>(
    est: &E,
    ps: Seq<PatTriple>,
    steps: Seq<int>,
    must_connect: bool,
    k: int,
) -> bool {
    &&& 0 <= k < ps.len()
    &&& eligible(ps, steps, must_connect, k)
    &&& forall|j: int|
        0 <= j < ps.len() && #[trigger] eligible(ps, steps, must_connect, j) ==> cost(est, ps, k) < cost(
            est,
            ps,
            j,
        ) || (cost(est, ps, k) == cost(est, ps, j) && k <= j)
}

proof fn lemma_cheapest<E: CardEstimator>(
    est: &E,
    ps: Seq<PatTriple>,
    steps: Seq<int>,
    must_connect: bool,
    n: int,
)
    requires
        0 <= n <= ps.len(),
    ensures
        match cheapest(est, ps, steps, must_connect, n) {
            Some(k) => 0 <= k < n && eligible(ps, steps, must_connect, k) && cost(est, ps, k) < usize::MAX
                && (forall|j: int|
                0 <= j < n && #[trigger] eligible(ps, steps, must_connect, j) ==> cost(est, ps, k) < cost(
                    est,
                    ps,
                    j,
                ) || (cost(est, ps, k) == cost(est, ps, j) && k <= j)),
            None => forall|j: int|
                0 <= j < n && #[trigger] eligible(ps, steps, must_connect, j) ==> cost(est, ps, j)
                    == usize::MAX,
        },
    decreases n,
{
    if n > 0 {
        lemma_cheapest(est, ps, steps, must_connect, n - 1);
    }
}

/// With estimates below the largest number, the greedy order takes every pattern
/// exactly once.
pub proof fn law_greedy_is_permutation<E: CardEstimator>(est: &E, ps: Seq<PatTriple>, n: nat)
    requires
        n <= ps.len(),
        forall|i: int| 0 <= i < ps.len() ==> #[trigger] cost(est, ps, i) < usize::MAX,
    ensures
        greedy(est, ps, n).len() == n,
        greedy(est, ps, n).no_duplicates(),
        forall|k: int| 0 <= k < n ==> 0 <= #[trigger] greedy(est, ps, n)[k] < ps.len(),
    decreases n,
{
    if n > 0 {
        let m = (n - 1) as nat;
        law_greedy_is_permutation(est, ps, m);
        let steps = greedy(est, ps, m);
        let len = ps.len() as int;
        lemma_cheapest(est, ps, steps, true, len);
        lemma_cheapest(est, ps, steps, false, len);
        // Some pattern is left.
        let all = vstd::set_lib::set_int_range(0, len);
        vstd::set_lib::lemma_int_range(0, len);
        steps.unique_seq_to_set();
        assert(exists|j: int| 0 <= j < len && !steps.contains(j)) by {
            if forall|j: int| 0 <= j < len ==> steps.contains(j) {
                assert(all.subset_of(steps.to_set()));
                vstd::set_lib::lemma_len_subset(all, steps.to_set());
            }
        }
        let j = choose|j: int| 0 <= j < len && !steps.contains(j);
        assert(eligible(ps, steps, false, j));
        assert(cost(est, ps, j) < usize::MAX);
        let k = next_step(est, ps, steps);
        assert(0 <= k < len && !steps.contains(k));
        let out = greedy(est, ps, n);
        assert(out == steps.push(k));
        assert forall|a: int, b: int| 0 <= a < out.len() && 0 <= b < out.len() && a
            != b implies out[a] != out[b] by {
            if a == m {
                assert(steps.contains(steps[b]));
            }
            if b == m {
                assert(steps.contains(steps[a]));
            }
        }
        assert forall|i: int| 0 <= i < n implies 0 <= #[trigger] out[i] < ps.len() by {
            if i < m {
                assert(steps[i] == out[i]);
            }
        }
    }
}

proof fn lemma_greedy_prefix<E: CardEstimator>(est: &E, ps: Seq<PatTriple>, n: nat, k: nat)
    requires
        k <= n,
    ensures
        greedy(est, ps, n).len() == n,
        greedy(est, ps, n).take(k as int) == greedy(est, ps, k),
    decreases n,
{
    if k < n {
        lemma_greedy_prefix(est, ps, (n - 1) as nat, k);
        assert(greedy(est, ps, n).take(k as int) =~= greedy(est, ps, (n - 1) as nat).take(k as int));
    } else {
        if n > 0 {
            lemma_greedy_prefix(est, ps, (n - 1) as nat, (n - 1) as nat);
        }
        assert(greedy(est, ps, n).take(n as int) =~= greedy(est, ps, n));
    }
}

/// What the greedy order takes: first the cheapest pattern, and then always the
/// cheapest one that is connected to what is planned, or the cheapest one left if
/// none is connected. Of equally cheap patterns it takes the earliest.
pub proof fn law_greedy_choices<E: CardEstimator>(est: &E, ps: Seq<PatTriple>, n: nat, k: int)
    requires
        0 <= k < n <= ps.len(),
        forall|i: int| 0 <= i < ps.len() ==> #[trigger] cost(est, ps, i) < usize::MAX,
    ensures
        ({
            let plan = greedy(est, ps, n);
            let steps = plan.take(k);
            let connects = exists|j: int| 0 <= j < ps.len() && #[trigger] eligible(ps, steps, true, j);
            &&& first_cheapest(est, ps, steps, connects, plan[k])
            &&& k == 0 ==> forall|j: int|
                0 <= j < ps.len() ==> cost(est, ps, plan[0]) < #[trigger] cost(est, ps, j) || (cost(
                    est,
                    ps,
                    plan[0],
                ) == cost(est, ps, j) && plan[0] <= j)
        }),
{
    let plan = greedy(est, ps, n);
    let steps = plan.take(k);
    let len = ps.len() as int;
    lemma_greedy_prefix(est, ps, n, k as nat);
    lemma_greedy_prefix(est, ps, n, (k + 1) as nat);
    assert(plan.take(k + 1)[k] == plan[k]);
    assert(steps == greedy(est, ps, k as nat));
    assert(plan[k] == next_step(est, ps, steps));
    law_greedy_is_permutation(est, ps, n);
    lemma_cheapest(est, ps, steps, true, len);
    lemma_cheapest(est, ps, steps, false, len);
    assert(!steps.contains(plan[k])) by {
        if steps.contains(plan[k]) {
            let i = choose|i: int| 0 <= i < steps.len() && steps[i] == plan[k];
            assert(plan[i] == plan[k]);
        }
    }
    assert(eligible(ps, steps, false, plan[k]));
    if exists|j: int| 0 <= j < ps.len() && #[trigger] eligible(ps, steps, true, j) {
        let j = choose|j: int| 0 <= j < ps.len() && #[trigger] eligible(ps, steps, true, j);
        assert(cost(est, ps, j) < usize::MAX);
    } else {
        assert(cheapest(est, ps, steps, true, len) is None);
        assert(cost(est, ps, plan[k]) < usize::MAX);
    }
    if k == 0 {
        assert forall|j: int| 0 <= j < len implies cost(est, ps, plan[0]) < #[trigger] cost(est, ps, j) || (
        cost(est, ps, plan[0]) == cost(est, ps, j) && plan[0] <= j) by {
            assert(eligible(ps, steps, false, j));
        }
    }
}

impl GraphPattern {
    /// Whether two patterns have a variable in common.
    fn patterns_share_variables(&self, i: usize, j: usize) -> (r: bool)
        requires
            i < self.patterns@.len(),
            j < self.patterns@.len(),
        ensures
            r == share_variable(self@[i as int], self@[j as int]),
    {
        let a: Vec<&String> = self.patterns[i].variables();
        let b: Vec<&String> = self.patterns[j].variables();
        let ghost va = names(a@);
        let ghost vb = names(b@);
        proof {
            assert(self@[i as int] == self.patterns@[i as int]@);
            assert(self@[j as int] == self.patterns@[j as int]@);
        }
        let mut k: usize = 0;
        while k < b.len()
            invariant
                k <= b@.len(),
                va == names(a@),
                vb == names(b@),
                va == triple_vars(self@[i as int]),
                vb == triple_vars(self@[j as int]),
                forall|l: int| 0 <= l < k ==> !va.contains(#[trigger] vb[l]),
            decreases b@.len() - k,
        {
            if has_name(&a, b[k]) {
                proof {
                    assert(vb[k as int] == b@[k as int]@);
                    assert(vb.contains(vb[k as int]));
                }
                return true;
            }
            assert(vb[k as int] == b@[k as int]@);
            k += 1;
        }
        proof {
            if share_variable(self@[i as int], self@[j as int]) {
                let v = choose|v: Seq<char>| va.contains(v) && #[trigger] vb.contains(v);
                let l = choose|l: int| 0 <= l < vb.len() && vb[l] == v;
                assert(!va.contains(vb[l]));
            }
        }
        false
    }

    /// Whether pattern `i` is connected to a planned one.
    fn is_connected(&self, steps: &Vec<PlanStep>, i: usize) -> (r: bool)
        requires
            i < self.patterns@.len(),
            forall|k: int|
                0 <= k < steps@.len() ==> (#[trigger] steps@[k]).pattern_index < self.patterns@.len(),
        ensures
            r == connected(self@, step_list(steps@), i as int),
    {
        let mut k: usize = 0;
        while k < steps.len()
            invariant
                k <= steps@.len(),
                i < self.patterns@.len(),
                forall|l: int|
                    0 <= l < steps@.len() ==> (#[trigger] steps@[l]).pattern_index
                        < self.patterns@.len(),
                forall|l: int|
                    0 <= l < k ==> !share_variable(
                        self@[i as int],
                        self@[#[trigger] step_list(steps@)[l]],
                    ),
            decreases steps@.len() - k,
        {
            if self.patterns_share_variables(i, steps[k].pattern_index) {
                assert(step_list(steps@)[k as int] == steps@[k as int].pattern_index);
                return true;
            }
            k += 1;
        }
        false
    }

    /// The cheapest eligible pattern.
    fn pick<E: CardEstimator>(&self, est: &E, steps: &Vec<PlanStep>, must_connect: bool) -> (r:
        Option<usize>)
        requires
            est.ready(),
            forall|k: int|
                0 <= k < steps@.len() ==> (#[trigger] steps@[k]).pattern_index < self.patterns@.len(),
        ensures
            match r {
                Some(k) => k < self.patterns@.len() && cheapest(
                    est,
                    self@,
                    step_list(steps@),
                    must_connect,
                    self@.len() as int,
                ) == Some(k as int),
                None => cheapest(est, self@, step_list(steps@), must_connect, self@.len() as int) is None,
            },
    {
        let ghost done = step_list(steps@);
        let mut pick: Option<usize> = None;
        let mut pick_cost: usize = usize::MAX;
        let mut i: usize = 0;
        while i < self.patterns.len()
            invariant
                est.ready(),
                i <= self.patterns@.len(),
                done == step_list(steps@),
                forall|k: int|
                    0 <= k < steps@.len() ==> (#[trigger] steps@[k]).pattern_index
                        < self.patterns@.len(),
                match pick {
                    Some(k) => k < i && cheapest(est, self@, done, must_connect, i as int) == Some(
                        k as int,
                    ) && pick_cost == cost(est, self@, k as int),
                    None => cheapest(est, self@, done, must_connect, i as int) is None && pick_cost
                        == usize::MAX,
                },
            decreases self.patterns@.len() - i,
        {
            let planned: bool = is_planned(steps, i);
            let ok: bool = !planned && (!must_connect || self.is_connected(steps, i));
            assert(ok == eligible(self@, done, must_connect, i as int));
            if ok {
                let pat: &TriplePattern = &self.patterns[i];
                assert(self@[i as int] == pat@);
                let c: usize = estimate_cardinality(est, &pat.subject, &pat.predicate, &pat.object);
                if c < pick_cost {
                    pick_cost = c;
                    pick = Some(i);
                }
            }
            i += 1;
        }
        pick
    }

    /// The greedy order: the most selective pattern first, then always the
    /// cheapest one that is connected to what is planned; a disconnected one
    /// only when nothing is connected.
    pub fn optimize<E: CardEstimator>(&self, est: &E) -> (plan: ExecutionPlan)
        requires
            est.ready(),
        ensures
            plan@ == greedy(est, self@, self@.len()),
            forall|k: int| 0 <= k < plan@.len() ==> 0 <= #[trigger] plan@[k] < self@.len(),
    {
        let n: usize = self.patterns.len();
        let mut steps: Vec<PlanStep> = Vec::new();
        proof {
            assert(step_list(steps@) =~= greedy(est, self@, 0));
        }
        while steps.len() < n
            invariant
                est.ready(),
                n == self.patterns@.len(),
                steps@.len() <= n,
                forall|k: int| 0 <= k < steps@.len() ==> (#[trigger] steps@[k]).pattern_index < n,
                step_list(steps@) == greedy(est, self@, steps@.len()),
            decreases n - steps@.len(),
        {
            let idx: usize = match self.pick(est, &steps, true) {
                Some(k) => k,
                None => match self.pick(est, &steps, false) {
                    Some(k) => k,
                    None => 0,
                },
            };
            let ghost before = steps@;
            steps.push(PlanStep { pattern_index: idx });
            assert(step_list(steps@) =~= step_list(before).push(idx as int));
        }
        let plan: ExecutionPlan = ExecutionPlan { steps };
        assert(plan@ =~= step_list(steps@));
        plan
    }
}

/// The pattern numbers of a list of steps.
pub open spec fn step_list(steps: Seq<PlanStep>) -> Seq<int> {
    steps.map_values(|s: PlanStep| s.pattern_index as int)
}

/// Whether pattern `i` is planned already.
fn is_planned(steps: &Vec<PlanStep>, i: usize) -> (r: bool)
    ensures
        r == step_list(steps@).contains(i as int),
{
    let mut k: usize = 0;
    while k < steps.len()
        invariant
            k <= steps@.len(),
            forall|l: int| 0 <= l < k ==> #[trigger] step_list(steps@)[l] != i,
        decreases steps@.len() - k,
    {
        if steps[k].pattern_index == i {
            assert(step_list(steps@)[k as int] == i);
            return true;
        }
        k += 1;
    }
    false
}

} // verus!
