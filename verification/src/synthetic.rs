//! Graph-shaped test data: triples over one vocabulary of entities, with planted
//! triangles and chains, so that joins find something.

use crate::text::{decimal, decimal_text, owned};
use rand::rngs::StdRng;
use rand::{RngExt, SeedableRng};
use vstd::prelude::*;

verus! {

/// The generator of random numbers of `rand`, carried as an opaque value.
#[verifier::external_type_specification]
#[verifier::external_body]
pub struct ExStdRng(StdRng);

/// `StdRng::seed_from_u64`: a generator that starts from `seed`. What it will give
/// depends on the machine too, so nothing is claimed of it.
#[verifier::external_body]
fn seeded(seed: u64) -> (rng: StdRng) {
    StdRng::seed_from_u64(seed)
}

/// `RngExt::random_range`: some number below `n`. Which one is left open.
#[verifier::external_body]
fn pick(rng: &mut StdRng, n: usize) -> (r: usize)
    requires
        n > 0,
    ensures
        r < n,
{
    rng.random_range(0..n)
}

/// How much to generate.
#[derive(Debug, Clone, Copy)]
pub struct SyntheticParams {
    /// How many entities there are.
    pub n_entities: usize,
    /// How many predicates there are.
    pub n_predicates: usize,
    /// How many triples there are to be.
    pub n_triples: usize,
    /// How many triangles are planted.
    pub n_triangles: usize,
    /// How many chains are planted.
    pub n_chains: usize,
    /// Where the random numbers start.
    pub seed: u64,
}

impl Default for SyntheticParams {
    fn default() -> (r: SyntheticParams)
        ensures
            r.n_entities == 50_000,
            r.n_predicates == 100,
            r.n_triples == 1_000_000,
            r.n_triangles == 1_000,
            r.n_chains == 2_000,
            r.seed == 42,
    {
        SyntheticParams {
            n_entities: 50_000,
            n_predicates: 100,
            n_triples: 1_000_000,
            n_triangles: 1_000,
            n_chains: 2_000,
            seed: 42,
        }
    }
}

impl SyntheticParams {
    /// The planted entities can be numbered, and there is something to pick from
    /// where something is picked.
    pub open spec fn wf(&self) -> bool {
        &&& self.n_predicates > 0
        &&& self.n_entities > 0 || (self.n_triangles == 0 && self.n_chains == 0 && self.n_triples == 0)
        &&& 3 * self.n_triangles + 4 * self.n_chains <= usize::MAX
    }
}

/// A triple of names.
pub type NameTriple = (Seq<char>, Seq<char>, Seq<char>);

pub open spec fn entity_name(i: int) -> Seq<char> {
    "entity_"@ + decimal(i as nat)
}

pub open spec fn predicate_name(i: int) -> Seq<char> {
    "predicate_"@ + decimal(i as nat)
}

/// The name of the entity with a number, counted round.
pub open spec fn entity_at(p: SyntheticParams, i: int) -> Seq<char> {
    entity_name(i % p.n_entities as int)
}

pub open spec fn predicate_at(p: SyntheticParams, i: int) -> Seq<char> {
    predicate_name(i % p.n_predicates as int)
}

/// The three edges of triangle `t`.
pub open spec fn triangle(p: SyntheticParams, t: int) -> Seq<NameTriple> {
    let a = entity_at(p, 3 * t);
    let b = entity_at(p, 3 * t + 1);
    let c = entity_at(p, 3 * t + 2);
    seq![(a, predicate_name(0), b), (b, predicate_name(0), c), (c, predicate_name(0), a)]
}

/// The three edges of chain `c`; its entities come after those of the triangles.
pub open spec fn chain(p: SyntheticParams, c: int) -> Seq<NameTriple> {
    let base = 3 * p.n_triangles + 4 * c;
    let w = entity_at(p, base);
    let x = entity_at(p, base + 1);
    let y = entity_at(p, base + 2);
    let z = entity_at(p, base + 3);
    seq![(w, predicate_name(0), x), (x, predicate_at(p, 1), y), (y, predicate_at(p, 2), z)]
}

/// The first `n` triangles.
pub open spec fn triangles(p: SyntheticParams, n: int) -> Seq<NameTriple>
    decreases n,
{
    if n <= 0 {
        Seq::empty()
    } else {
        triangles(p, n - 1) + triangle(p, n - 1)
    }
}

/// The first `n` chains.
pub open spec fn chains(p: SyntheticParams, n: int) -> Seq<NameTriple>
    decreases n,
{
    if n <= 0 {
        Seq::empty()
    } else {
        chains(p, n - 1) + chain(p, n - 1)
    }
}

/// The triples that are there whatever is picked.
pub open spec fn planted(p: SyntheticParams) -> Seq<NameTriple> {
    triangles(p, p.n_triangles as int) + chains(p, p.n_chains as int)
}

/// A triple over the vocabulary.
pub open spec fn filler(p: SyntheticParams, t: NameTriple) -> bool {
    exists|s: int, q: int, o: int|
        0 <= s < p.n_entities && 0 <= q < p.n_predicates && 0 <= o < p.n_entities && t == (
            #[trigger] entity_name(s),
            #[trigger] predicate_name(q),
            #[trigger] entity_name(o),
        )
}

proof fn lemma_planted_len(p: SyntheticParams, n: int)
    requires
        n >= 0,
    ensures
        triangles(p, n).len() == 3 * n,
        chains(p, n).len() == 3 * n,
    decreases n,
{
    if n > 0 {
        lemma_planted_len(p, n - 1);
    }
}

proof fn lemma_block(p: SyntheticParams, n: int, t: int)
    requires
        0 <= t < n,
    ensures
        triangles(p, n).subrange(3 * t, 3 * t + 3) == triangle(p, t),
        chains(p, n).subrange(3 * t, 3 * t + 3) == chain(p, t),
    decreases n,
{
    lemma_planted_len(p, n);
    lemma_planted_len(p, n - 1);
    if t == n - 1 {
        assert(triangles(p, n).subrange(3 * t, 3 * t + 3) =~= triangle(p, t));
        assert(chains(p, n).subrange(3 * t, 3 * t + 3) =~= chain(p, t));
    } else {
        lemma_block(p, n - 1, t);
        assert(triangles(p, n).subrange(3 * t, 3 * t + 3) =~= triangles(p, n - 1).subrange(
            3 * t,
            3 * t + 3,
        ));
        assert(chains(p, n).subrange(3 * t, 3 * t + 3) =~= chains(p, n - 1).subrange(
            3 * t,
            3 * t + 3,
        ));
    }
}

/// A triangle query over the first predicate finds every planted triangle: its
/// edges are among the planted triples and close.
pub proof fn law_triangles_planted(p: SyntheticParams, t: int)
    requires
        0 <= t < p.n_triangles,
    ensures
        ({
            let p0 = predicate_name(0);
            let a = entity_at(p, 3 * t);
            let b = entity_at(p, 3 * t + 1);
            let c = entity_at(p, 3 * t + 2);
            planted(p).contains((a, p0, b)) && planted(p).contains((b, p0, c)) && planted(p).contains(
                (c, p0, a),
            )
        }),
{
    let n = p.n_triangles as int;
    lemma_block(p, n, t);
    lemma_planted_len(p, n);
    let block = triangles(p, n).subrange(3 * t, 3 * t + 3);
    assert forall|k: int| 0 <= k < 3 implies planted(p).contains(#[trigger] triangle(p, t)[k]) by {
        assert(block[k] == triangles(p, n)[3 * t + k]);
        assert(planted(p)[3 * t + k] == triangle(p, t)[k]);
    }
    assert(planted(p).contains(triangle(p, t)[0]));
    assert(planted(p).contains(triangle(p, t)[1]));
    assert(planted(p).contains(triangle(p, t)[2]));
}

/// A chain query over the first three predicates finds every planted chain: its
/// edges are among the planted triples and meet.
pub proof fn law_chains_planted(p: SyntheticParams, c: int)
    requires
        0 <= c < p.n_chains,
    ensures
        ({
            let base = 3 * p.n_triangles + 4 * c;
            let w = entity_at(p, base);
            let x = entity_at(p, base + 1);
            let y = entity_at(p, base + 2);
            let z = entity_at(p, base + 3);
            planted(p).contains((w, predicate_name(0), x)) && planted(p).contains(
                (x, predicate_at(p, 1), y),
            ) && planted(p).contains((y, predicate_at(p, 2), z))
        }),
{
    let n = p.n_chains as int;
    lemma_block(p, n, c);
    lemma_planted_len(p, n);
    lemma_planted_len(p, p.n_triangles as int);
    let block = chains(p, n).subrange(3 * c, 3 * c + 3);
    assert forall|k: int| 0 <= k < 3 implies planted(p).contains(#[trigger] chain(p, c)[k]) by {
        assert(block[k] == chains(p, n)[3 * c + k]);
        assert(planted(p)[3 * p.n_triangles + 3 * c + k] == chain(p, c)[k]);
    }
    assert(planted(p).contains(chain(p, c)[0]));
    assert(planted(p).contains(chain(p, c)[1]));
    assert(planted(p).contains(chain(p, c)[2]));
}

// --- Generating ------------------------------------------------------------------------

pub open spec fn names_view(ts: Seq<(String, String, String)>) -> Seq<NameTriple> {
    ts.map_values(|t: (String, String, String)| (t.0@, t.1@, t.2@))
}

fn entity(i: usize) -> (s: String)
    ensures
        s@ == entity_name(i as int),
{
    let mut s: String = owned("entity_");
    s.push_str(decimal_text(i as u64).as_str());
    s
}

fn predicate(i: usize) -> (s: String)
    ensures
        s@ == predicate_name(i as int),
{
    let mut s: String = owned("predicate_");
    s.push_str(decimal_text(i as u64).as_str());
    s
}

fn add(out: &mut Vec<(String, String, String)>, s: String, p: String, o: String)
    ensures
        names_view(final(out)@) == names_view(old(out)@).push((s@, p@, o@)),
{
    out.push((s, p, o));
    assert(names_view(out@) =~= names_view(old(out)@).push((s@, p@, o@)));
}

/// The planted triples.
pub fn plant(p: &SyntheticParams) -> (out: Vec<(String, String, String)>)
    requires
        p.wf(),
    ensures
        names_view(out@) == planted(*p),
{
    let mut out: Vec<(String, String, String)> = Vec::new();
    let n: usize = p.n_entities;
    let mut t: usize = 0;
    assert(names_view(out@) =~= triangles(*p, 0));
    while t < p.n_triangles
        invariant
            p.wf(),
            n == p.n_entities,
            t <= p.n_triangles,
            names_view(out@) == triangles(*p, t as int),
        decreases p.n_triangles - t,
    {
        let a: usize = (3 * t) % n;
        let b: usize = (3 * t + 1) % n;
        let c: usize = (3 * t + 2) % n;
        let ghost before = names_view(out@);
        self::add(&mut out, entity(a), predicate(0), entity(b));
        self::add(&mut out, entity(b), predicate(0), entity(c));
        self::add(&mut out, entity(c), predicate(0), entity(a));
        assert(names_view(out@) =~= before + triangle(*p, t as int));
        t += 1;
    }
    let base: usize = 3 * p.n_triangles;
    let ghost done = triangles(*p, p.n_triangles as int);
    let mut c: usize = 0;
    assert(done + chains(*p, 0) =~= done);
    while c < p.n_chains
        invariant
            p.wf(),
            n == p.n_entities,
            base == 3 * p.n_triangles,
            c <= p.n_chains,
            names_view(out@) == done + chains(*p, c as int),
        decreases p.n_chains - c,
    {
        let w: usize = (base + 4 * c) % n;
        let x: usize = (base + 4 * c + 1) % n;
        let y: usize = (base + 4 * c + 2) % n;
        let z: usize = (base + 4 * c + 3) % n;
        let ghost before = names_view(out@);
        self::add(&mut out, entity(w), predicate(0), entity(x));
        self::add(&mut out, entity(x), predicate(1 % p.n_predicates), entity(y));
        self::add(&mut out, entity(y), predicate(2 % p.n_predicates), entity(z));
        assert(names_view(out@) =~= before + chain(*p, c as int));
        assert(names_view(out@) =~= done + chains(*p, c + 1));
        c += 1;
    }
    out
}

/// The triples: first the planted ones, then as many random ones over the same
/// vocabulary as are missing.
pub fn generate(params: &SyntheticParams) -> (out: Vec<(String, String, String)>)
    requires
        params.wf(),
    ensures
        out@.len() == if planted(*params).len() < params.n_triples {
            params.n_triples as nat
        } else {
            planted(*params).len()
        },
        names_view(out@).take(planted(*params).len() as int) == planted(*params),
        forall|i: int|
            planted(*params).len() <= i < out@.len() ==> filler(
                *params,
                #[trigger] names_view(out@)[i],
            ),
{
    let mut rng: StdRng = seeded(params.seed);
    let mut out: Vec<(String, String, String)> = plant(params);
    let ghost first = planted(*params);
    assert(names_view(out@).take(first.len() as int) =~= first);
    while out.len() < params.n_triples
        invariant
            params.wf(),
            first == planted(*params),
            first.len() <= out@.len(),
            out@.len() <= params.n_triples || out@.len() == first.len(),
            names_view(out@).take(first.len() as int) == first,
            forall|i: int|
                first.len() <= i < out@.len() ==> filler(*params, #[trigger] names_view(out@)[i]),
        decreases params.n_triples - out@.len(),
    {
        let s: usize = pick(&mut rng, params.n_entities);
        let q: usize = pick(&mut rng, params.n_predicates);
        let o: usize = pick(&mut rng, params.n_entities);
        let ghost before = names_view(out@);
        self::add(&mut out, entity(s), predicate(q), entity(o));
        proof {
            let t = (entity_name(s as int), predicate_name(q as int), entity_name(o as int));
            assert(filler(*params, t));
            assert(names_view(out@).len() == out@.len());
            assert(names_view(out@).take(first.len() as int) =~= before.take(first.len() as int));
            assert forall|i: int| first.len() <= i < out@.len() implies filler(
                *params,
                #[trigger] names_view(out@)[i],
            ) by {
                if i < before.len() {
                    assert(names_view(out@)[i] == before[i]);
                } else {
                    assert(names_view(out@)[i] == t);
                }
            }
        }
    }
    out
}

} // verus!
