//! Cardinality estimates for the planner.

use crate::fxmap::{fx_get, fx_new, pair_key};
use crate::hypertrie::planner::{PatTerm, PatternTerm};
use rustc_hash::FxHashMap;
use vstd::prelude::*;

verus! {

/// Cardinality primitives for the planner.
pub trait CardEstimator {
    /// What an implementation needs to hold to answer.
    spec fn ready(&self) -> bool;

    spec fn spec_total(&self) -> usize;

    spec fn spec_sp(&self, s: u32, p: u32) -> usize;

    spec fn spec_po(&self, p: u32, o: u32) -> usize;

    spec fn spec_os(&self, o: u32, s: u32) -> usize;

    spec fn spec_sdeg(&self, s: u32) -> usize;

    spec fn spec_pdeg(&self, p: u32) -> usize;

    spec fn spec_odeg(&self, o: u32) -> usize;

    fn total(&self) -> (n: usize)
        requires
            self.ready(),
        ensures
            n == self.spec_total(),
    ;

    /// Objects of `(s, p)`.
    fn sp(&self, s: u32, p: u32) -> (n: usize)
        requires
            self.ready(),
        ensures
            n == self.spec_sp(s, p),
    ;

    /// Subjects of `(p, o)`.
    fn po(&self, p: u32, o: u32) -> (n: usize)
        requires
            self.ready(),
        ensures
            n == self.spec_po(p, o),
    ;

    /// Predicates between `s` and `o`.
    fn os(&self, o: u32, s: u32) -> (n: usize)
        requires
            self.ready(),
        ensures
            n == self.spec_os(o, s),
    ;

    /// Triples with subject `s`.
    fn sdeg(&self, s: u32) -> (n: usize)
        requires
            self.ready(),
        ensures
            n == self.spec_sdeg(s),
    ;

    /// Triples with predicate `p`.
    fn pdeg(&self, p: u32) -> (n: usize)
        requires
            self.ready(),
        ensures
            n == self.spec_pdeg(p),
    ;

    /// Triples with object `o`.
    fn odeg(&self, o: u32) -> (n: usize)
        requires
            self.ready(),
        ensures
            n == self.spec_odeg(o),
    ;
}

/// The estimated number of rows of a pattern.
pub open spec fn estimate<E: CardEstimator>(est: &E, s: PatTerm, p: PatTerm, o: PatTerm) -> usize {
    match (s, p, o) {
        (PatTerm::Bound(_), PatTerm::Bound(_), PatTerm::Bound(_)) => 1,
        (PatTerm::Bound(sv), PatTerm::Bound(pv), PatTerm::Variable(_)) => est.spec_sp(sv, pv),
        (PatTerm::Variable(_), PatTerm::Bound(pv), PatTerm::Bound(ov)) => est.spec_po(pv, ov),
        (PatTerm::Bound(sv), PatTerm::Variable(_), PatTerm::Bound(ov)) => est.spec_os(ov, sv),
        (PatTerm::Bound(sv), PatTerm::Variable(_), PatTerm::Variable(_)) => est.spec_sdeg(sv),
        (PatTerm::Variable(_), PatTerm::Bound(pv), PatTerm::Variable(_)) => est.spec_pdeg(pv),
        (PatTerm::Variable(_), PatTerm::Variable(_), PatTerm::Bound(ov)) => est.spec_odeg(ov),
        (PatTerm::Variable(_), PatTerm::Variable(_), PatTerm::Variable(_)) => est.spec_total(),
    }
}

/// Estimates the number of rows of a triple pattern.
pub fn estimate_cardinality<E: CardEstimator>(
    est: &E,
    s: &PatternTerm,
    p: &PatternTerm,
    o: &PatternTerm,
) -> (n: usize)
    requires
        est.ready(),
    ensures
        n == estimate(est, s@, p@, o@),
{
    match (s, p, o) {
        (PatternTerm::Bound(_), PatternTerm::Bound(_), PatternTerm::Bound(_)) => 1,
        (PatternTerm::Bound(sv), PatternTerm::Bound(pv), PatternTerm::Variable(_)) => est.sp(*sv, *pv),
        (PatternTerm::Variable(_), PatternTerm::Bound(pv), PatternTerm::Bound(ov)) => est.po(*pv, *ov),
        (PatternTerm::Bound(sv), PatternTerm::Variable(_), PatternTerm::Bound(ov)) => est.os(*ov, *sv),
        (PatternTerm::Bound(sv), PatternTerm::Variable(_), PatternTerm::Variable(_)) => est.sdeg(*sv),
        (PatternTerm::Variable(_), PatternTerm::Bound(pv), PatternTerm::Variable(_)) => est.pdeg(*pv),
        (PatternTerm::Variable(_), PatternTerm::Variable(_), PatternTerm::Bound(ov)) => est.odeg(*ov),
        (
            PatternTerm::Variable(_),
            PatternTerm::Variable(_),
            PatternTerm::Variable(_),
        ) => est.total(),
    }
}

/// Numbers that were counted in advance. A pair of identifiers is one key, see
/// [`pair_key`].
#[derive(Debug)]
pub struct Stats {
    pub total_triples: usize,
    pub subject_degree: FxHashMap<u64, usize>,
    pub predicate_degree: FxHashMap<u64, usize>,
    pub object_degree: FxHashMap<u64, usize>,
    /// Objects by subject and predicate.
    pub spo_pair_count: FxHashMap<u64, usize>,
    /// Subjects by predicate and object.
    pub pos_pair_count: FxHashMap<u64, usize>,
    /// Predicates by object and subject.
    pub osp_pair_count: FxHashMap<u64, usize>,
}

/// What was counted under a key; zero if nothing was.
pub open spec fn counted(m: Map<u64, usize>, key: u64) -> usize {
    if m.contains_key(key) {
        m[key]
    } else {
        0
    }
}

fn count_of(m: &FxHashMap<u64, usize>, key: u64) -> (n: usize)
    ensures
        n == counted(m@, key),
{
    match fx_get(m, key) {
        Some(n) => *n,
        None => 0,
    }
}

impl Default for Stats {
    fn default() -> (r: Stats)
        ensures
            r.total_triples == 0,
            forall|k: u64|
                counted(r.subject_degree@, k) == 0 && counted(r.predicate_degree@, k) == 0
                    && counted(r.object_degree@, k) == 0 && counted(r.spo_pair_count@, k) == 0
                    && counted(r.pos_pair_count@, k) == 0 && #[trigger] counted(
                    r.osp_pair_count@,
                    k,
                ) == 0,
    {
        Stats {
            total_triples: 0,
            subject_degree: fx_new(),
            predicate_degree: fx_new(),
            object_degree: fx_new(),
            spo_pair_count: fx_new(),
            pos_pair_count: fx_new(),
            osp_pair_count: fx_new(),
        }
    }
}

impl CardEstimator for Stats {
    open spec fn ready(&self) -> bool {
        true
    }

    open spec fn spec_total(&self) -> usize {
        self.total_triples
    }

    open spec fn spec_sp(&self, s: u32, p: u32) -> usize {
        counted(self.spo_pair_count@, pair_key(s, p))
    }

    open spec fn spec_po(&self, p: u32, o: u32) -> usize {
        counted(self.pos_pair_count@, pair_key(p, o))
    }

    open spec fn spec_os(&self, o: u32, s: u32) -> usize {
        counted(self.osp_pair_count@, pair_key(o, s))
    }

    open spec fn spec_sdeg(&self, s: u32) -> usize {
        counted(self.subject_degree@, s as u64)
    }

    open spec fn spec_pdeg(&self, p: u32) -> usize {
        counted(self.predicate_degree@, p as u64)
    }

    open spec fn spec_odeg(&self, o: u32) -> usize {
        counted(self.object_degree@, o as u64)
    }

    fn total(&self) -> (n: usize) {
        self.total_triples
    }

    fn sp(&self, s: u32, p: u32) -> (n: usize) {
        count_of(&self.spo_pair_count, pair_key(s, p))
    }

    fn po(&self, p: u32, o: u32) -> (n: usize) {
        count_of(&self.pos_pair_count, pair_key(p, o))
    }

    fn os(&self, o: u32, s: u32) -> (n: usize) {
        count_of(&self.osp_pair_count, pair_key(o, s))
    }

    fn sdeg(&self, s: u32) -> (n: usize) {
        count_of(&self.subject_degree, s as u64)
    }

    fn pdeg(&self, p: u32) -> (n: usize) {
        count_of(&self.predicate_degree, p as u64)
    }

    fn odeg(&self, o: u32) -> (n: usize) {
        count_of(&self.object_degree, o as u64)
    }
}

} // verus!
