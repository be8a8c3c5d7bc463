//! Deductive inference by rewriting queries.
//!
//! The stored triples are never changed. A basic graph pattern is extended by
//! alternatives that find what follows from the schema:
//!
//! - a type, from a type that is a subclass of it;
//! - a type, from a predicate whose domain or range it is, where the predicate
//!   may be a sub-property of the declared one and the declared class a subclass
//!   of the asked one;
//! - any other triple, from one with a sub-property of its predicate.
//!
//! Each alternative reads the schema by one property path, so closures need no
//! iteration here. The path is the left part of a join: where it leads nowhere, the
//! triples of the alternative are not read. An entailed solution is given once, whatever it follows from.

use crate::hypertrie::dictionary::{TermKind, TermType};
use crate::hypertrie::executor::place_from;
use crate::hypertrie::planner::{
    law_pattern_vars, merged_names, pattern_vars, triple_vars, PatTriple,
};
use crate::hypertrie::rows::{law_rows_in_order, rows_in_order, sliced};
use crate::sparql::algebra::{
    texts, triples_view, Node, NodeView, PathExpr, PathView, Pattern, PatternView, Triple,
    TripleView,
};
use crate::sparql::bgp::id_triples;
use crate::sparql::modifiers::{peeled, projected};
use crate::sparql::paths::{node_name, node_var};
use crate::sparql::solve::{solved, Setting};
use crate::sparql::tables::{aligned, merge_vars, table_ok, union_tables, Table};
use crate::text::{decimal, decimal_text, owned, same_text};
use vstd::prelude::*;

verus! {

pub open spec fn rdf_type() -> Seq<char> {
    "http://www.w3.org/1999/02/22-rdf-syntax-ns#type"@
}

pub open spec fn sub_class_of() -> Seq<char> {
    "http://www.w3.org/2000/01/rdf-schema#subClassOf"@
}

pub open spec fn sub_property_of() -> Seq<char> {
    "http://www.w3.org/2000/01/rdf-schema#subPropertyOf"@
}

/// The IRI of a declaration: of the domain or of the range.
pub open spec fn declared_by(domain: bool) -> Seq<char> {
    if domain {
        "http://www.w3.org/2000/01/rdf-schema#domain"@
    } else {
        "http://www.w3.org/2000/01/rdf-schema#range"@
    }
}

/// An alternative: the path that reads the schema, and the triple patterns that
/// hold besides.
#[derive(Debug)]
pub struct Branch {
    pub subject: Node,
    pub path: PathExpr,
    pub object: Node,
    pub patterns: Vec<Triple>,
}

#[verifier::ext_equal]
pub struct BranchView {
    pub subject: NodeView,
    pub path: PathView,
    pub object: NodeView,
    pub patterns: Seq<TripleView>,
}

impl View for Branch {
    type V = BranchView;

    open spec fn view(&self) -> BranchView {
        BranchView {
            subject: self.subject@,
            path: self.path.view(),
            object: self.object@,
            patterns: triples_view(self.patterns@),
        }
    }
}

pub open spec fn branches_view(v: Seq<Branch>) -> Seq<BranchView> {
    v.map_values(|b: Branch| b@)
}

/// The pattern of an alternative: the path comes first.
pub open spec fn branch_pattern(b: BranchView) -> PatternView {
    PatternView::Join(
        Box::new(PatternView::Path(b.subject, b.path, b.object)),
        Box::new(PatternView::Bgp(b.patterns)),
    )
}

impl Branch {
    /// The pattern of an alternative: the path comes first.
    pub fn into_pattern(self) -> (p: Pattern)
        ensures
            p.view() == branch_pattern(self@),
    {
        let ghost b = self@;
        let path: Pattern = Pattern::Path(self.subject, self.path, self.object);
        let bgp: Pattern = Pattern::Bgp(self.patterns);
        assert(path.view() == PatternView::Path(b.subject, b.path, b.object));
        assert(bgp.view() == PatternView::Bgp(b.patterns));
        Pattern::Join(Box::new(path), Box::new(bgp))
    }
}

/// The number after `n`; the last number stays.
pub open spec fn next_number(n: u64) -> u64 {
    if n < u64::MAX {
        (n + 1) as u64
    } else {
        n
    }
}

/// A variable that queries do not use.
pub open spec fn fresh_name(kind: Seq<char>, n: u64) -> Seq<char> {
    "__infer_"@ + kind + "_"@ + decimal(n as nat)
}

fn fresh_var(kind: &str, fresh: &mut u64) -> (r: String)
    ensures
        r@ == fresh_name(kind@, *old(fresh)),
        *final(fresh) == next_number(*old(fresh)),
{
    let n: u64 = *fresh;
    if n < u64::MAX {
        *fresh = n + 1;
    }
    let mut r: String = owned("__infer_");
    r.push_str(kind);
    r.push_str("_");
    let d: String = decimal_text(n);
    r.push_str(d.as_str());
    assert(r@ =~= fresh_name(kind@, n));
    r
}

/// An IRI as a node.
pub open spec fn iri_node(iri: Seq<char>) -> NodeView {
    NodeView::Known(iri, TermKind::Iri)
}

/// `subPropertyOf*`, the declaration, `subClassOf*`, one after the other.
pub open spec fn declaration_path(domain: bool) -> PathView {
    PathView::Sequence(
        Box::new(
            PathView::Sequence(
                Box::new(PathView::ZeroOrMore(Box::new(PathView::Link(sub_property_of())))),
                Box::new(PathView::Link(declared_by(domain))),
            ),
        ),
        Box::new(PathView::ZeroOrMore(Box::new(PathView::Link(sub_class_of())))),
    )
}

fn make_declaration_path(domain: bool) -> (p: PathExpr)
    ensures
        p.view() == declaration_path(domain),
{
    let declaration: String = if domain {
        owned("http://www.w3.org/2000/01/rdf-schema#domain")
    } else {
        owned("http://www.w3.org/2000/01/rdf-schema#range")
    };
    let properties: PathExpr = PathExpr::ZeroOrMore(
        Box::new(
            PathExpr::Link(owned("http://www.w3.org/2000/01/rdf-schema#subPropertyOf")),
        ),
    );
    let classes: PathExpr = PathExpr::ZeroOrMore(
        Box::new(PathExpr::Link(owned("http://www.w3.org/2000/01/rdf-schema#subClassOf"))),
    );
    let link: PathExpr = PathExpr::Link(declaration);
    let front: PathExpr = PathExpr::Sequence(Box::new(properties), Box::new(link));
    proof {
        assert(properties.view() == PathView::ZeroOrMore(
            Box::new(PathView::Link(sub_property_of())),
        )) by {
            reveal_with_fuel(PathExpr::view, 2);
        }
        assert(classes.view() == PathView::ZeroOrMore(Box::new(PathView::Link(sub_class_of())))) by {
            reveal_with_fuel(PathExpr::view, 2);
        }
        assert(link.view() == PathView::Link(declared_by(domain)));
        assert(front.view() == PathView::Sequence(
            Box::new(properties.view()),
            Box::new(link.view()),
        ));
    }
    PathExpr::Sequence(Box::new(front), Box::new(classes))
}

/// A path taken once or more.
pub open spec fn one_or_more(iri: Seq<char>) -> PathView {
    PathView::OneOrMore(Box::new(PathView::Link(iri)))
}

fn make_one_or_more(iri: &str) -> (p: PathExpr)
    ensures
        p.view() == one_or_more(iri@),
{
    let link: PathExpr = PathExpr::Link(owned(iri));
    assert(link.view() == PathView::Link(iri@));
    PathExpr::OneOrMore(Box::new(link))
}

/// A type, from a subclass of it.
pub open spec fn super_class_branch(ts: Seq<TripleView>, i: int, n: u64) -> BranchView {
    let class = NodeView::Variable(fresh_name("class"@, n));
    BranchView {
        subject: class,
        path: one_or_more(sub_class_of()),
        object: ts[i].object,
        patterns: ts.update(
            i,
            TripleView { subject: ts[i].subject, predicate: iri_node(rdf_type()), object: class },
        ),
    }
}

/// A type, from the domain or the range of a predicate.
pub open spec fn declaration_branch(ts: Seq<TripleView>, i: int, domain: bool, n: u64) -> BranchView {
    let predicate = NodeView::Variable(fresh_name("pred"@, n));
    let other = NodeView::Variable(fresh_name("node"@, next_number(n)));
    BranchView {
        subject: predicate,
        path: declaration_path(domain),
        object: ts[i].object,
        patterns: ts.update(
            i,
            if domain {
                TripleView { subject: ts[i].subject, predicate, object: other }
            } else {
                TripleView { subject: other, predicate, object: ts[i].subject }
            },
        ),
    }
}

/// A triple, from one with a sub-property.
pub open spec fn sub_property_branch(ts: Seq<TripleView>, i: int, n: u64) -> BranchView {
    let property = NodeView::Variable(fresh_name("prop"@, n));
    BranchView {
        subject: property,
        path: one_or_more(sub_property_of()),
        object: ts[i].predicate,
        patterns: ts.update(
            i,
            TripleView { subject: ts[i].subject, predicate: property, object: ts[i].object },
        ),
    }
}

/// Whether a triple pattern asks for a type.
pub open spec fn asks_type(t: TripleView) -> bool {
    t.predicate == iri_node(rdf_type())
}

/// The alternatives for the first `k` triple patterns, and the next free number.
pub open spec fn branches_of(ts: Seq<TripleView>, k: int, n: u64) -> (Seq<BranchView>, u64)
    decreases k,
{
    if k <= 0 {
        (Seq::empty(), n)
    } else {
        let (before, m) = branches_of(ts, k - 1, n);
        if asks_type(ts[k - 1]) {
            let m1 = next_number(m);
            let m3 = next_number(next_number(m1));
            (
                before.push(super_class_branch(ts, k - 1, m)).push(
                    declaration_branch(ts, k - 1, true, m1),
                ).push(declaration_branch(ts, k - 1, false, m3)),
                next_number(next_number(m3)),
            )
        } else {
            (before.push(sub_property_branch(ts, k - 1, m)), next_number(m))
        }
    }
}

/// The columns of a position.
pub open spec fn node_vars(n: NodeView) -> Seq<Seq<char>> {
    match node_var(n) {
        Some(v) => seq![v],
        None => Seq::empty(),
    }
}

/// The columns that a basic graph pattern binds, in the order in which it binds
/// them.
pub open spec fn projected_variables(ts: Seq<TripleView>) -> Seq<Seq<char>>
    decreases ts.len(),
{
    if ts.len() == 0 {
        Seq::empty()
    } else {
        let t = ts.last();
        merged_names(
            projected_variables(ts.drop_last()),
            node_vars(t.subject) + node_vars(t.predicate) + node_vars(t.object),
        )
    }
}

/// A pattern and the first `k` alternatives.
pub open spec fn alternatives(p: PatternView, bs: Seq<BranchView>, k: int) -> PatternView
    decreases k,
{
    if k <= 0 {
        p
    } else {
        PatternView::Union(Box::new(alternatives(p, bs, k - 1)), Box::new(branch_pattern(bs[k - 1])))
    }
}

/// A basic graph pattern with its alternatives; each solution once.
pub open spec fn inferred_bgp(ts: Seq<TripleView>, bs: Seq<BranchView>) -> PatternView {
    if bs.len() == 0 {
        PatternView::Bgp(ts)
    } else {
        PatternView::Distinct(
            Box::new(
                PatternView::Project(
                    projected_variables(ts),
                    Box::new(alternatives(PatternView::Bgp(ts), bs, bs.len() as int)),
                ),
            ),
        )
    }
}

/// A pattern with inference, and the next free number.
pub open spec fn rewritten(p: PatternView, n: u64) -> (PatternView, u64)
    decreases p,
{
    match p {
        PatternView::Bgp(ts) => {
            let (bs, m) = branches_of(ts, ts.len() as int, n);
            (inferred_bgp(ts, bs), m)
        },
        PatternView::Join(a, b) => {
            let (x, m) = rewritten(*a, n);
            let (y, k) = rewritten(*b, m);
            (PatternView::Join(Box::new(x), Box::new(y)), k)
        },
        PatternView::LeftJoin(a, b, e) => {
            let (x, m) = rewritten(*a, n);
            let (y, k) = rewritten(*b, m);
            (PatternView::LeftJoin(Box::new(x), Box::new(y), e), k)
        },
        PatternView::Union(a, b) => {
            let (x, m) = rewritten(*a, n);
            let (y, k) = rewritten(*b, m);
            (PatternView::Union(Box::new(x), Box::new(y)), k)
        },
        PatternView::Minus(a, b) => {
            let (x, m) = rewritten(*a, n);
            let (y, k) = rewritten(*b, m);
            (PatternView::Minus(Box::new(x), Box::new(y)), k)
        },
        PatternView::Filter(e, q) => {
            let (x, m) = rewritten(*q, n);
            (PatternView::Filter(e, Box::new(x)), m)
        },
        PatternView::Extend(q, v, e) => {
            let (x, m) = rewritten(*q, n);
            (PatternView::Extend(Box::new(x), v, e), m)
        },
        PatternView::Group(by, aggs, q) => {
            let (x, m) = rewritten(*q, n);
            (PatternView::Group(by, aggs, Box::new(x)), m)
        },
        PatternView::Project(vars, q) => {
            let (x, m) = rewritten(*q, n);
            (PatternView::Project(vars, Box::new(x)), m)
        },
        PatternView::Distinct(q) => {
            let (x, m) = rewritten(*q, n);
            (PatternView::Distinct(Box::new(x)), m)
        },
        PatternView::Reduced(q) => {
            let (x, m) = rewritten(*q, n);
            (PatternView::Reduced(Box::new(x)), m)
        },
        PatternView::Slice(start, length, q) => {
            let (x, m) = rewritten(*q, n);
            (PatternView::Slice(start, length, Box::new(x)), m)
        },
        PatternView::Order(orders, q) => {
            let (x, m) = rewritten(*q, n);
            (PatternView::Order(orders, Box::new(x)), m)
        },
        PatternView::Path(_, _, _) => (p, n),
        PatternView::Values => (p, n),
        PatternView::Service(_) => (p, n),
        PatternView::Graph(_) => (p, n),
    }
}

// --- Rewriting -------------------------------------------------------------------------

/// The triple patterns with another one at place `i`.
fn with_triple(ts: &Vec<Triple>, i: usize, t: Triple) -> (r: Vec<Triple>)
    requires
        i < ts@.len(),
    ensures
        triples_view(r@) == triples_view(ts@).update(i as int, t@),
{
    let ghost tv = triples_view(ts@);
    let mut r: Vec<Triple> = Vec::new();
    let mut k: usize = 0;
    while k < ts.len()
        invariant
            k <= ts@.len(),
            tv == triples_view(ts@),
            r@.len() == k,
            triples_view(r@) == tv.take(k as int),
        decreases ts@.len() - k,
    {
        let ghost before = triples_view(r@);
        r.push(ts[k].clone());
        assert(triples_view(r@) =~= before.push(ts@[k as int]@));
        k += 1;
        assert(triples_view(r@) =~= tv.take(k as int));
    }
    assert(tv.take(k as int) =~= tv);
    let ghost before = r@;
    r.set(i, t);
    assert forall|j: int| 0 <= j < tv.len() implies triples_view(r@)[j] == tv.update(i as int, t@)[j] by {
        assert(triples_view(before)[j] == before[j]@);
    }
    assert(triples_view(r@) =~= tv.update(i as int, t@));
    r
}

fn is_type_predicate(p: &Node) -> (r: bool)
    ensures
        r == (p@ == iri_node(rdf_type())),
{
    match p {
        Node::Known(v, TermType::Iri) => same_text(
            v.as_str(),
            "http://www.w3.org/1999/02/22-rdf-syntax-ns#type",
        ),
        _ => false,
    }
}

fn make_super_class(ts: &Vec<Triple>, i: usize, fresh: &mut u64) -> (b: Branch)
    requires
        i < ts@.len(),
    ensures
        b@ == super_class_branch(triples_view(ts@), i as int, *old(fresh)),
        *final(fresh) == next_number(*old(fresh)),
{
    let class: String = fresh_var("class", fresh);
    let t: Triple = Triple {
        subject: ts[i].subject.clone(),
        predicate: Node::Known(
            owned("http://www.w3.org/1999/02/22-rdf-syntax-ns#type"),
            TermType::Iri,
        ),
        object: Node::Variable(class.clone()),
    };
    assert(triples_view(ts@)[i as int] == ts@[i as int]@);
    Branch {
        subject: Node::Variable(class),
        path: make_one_or_more("http://www.w3.org/2000/01/rdf-schema#subClassOf"),
        object: ts[i].object.clone(),
        patterns: with_triple(ts, i, t),
    }
}

fn make_declaration(ts: &Vec<Triple>, i: usize, domain: bool, fresh: &mut u64) -> (b: Branch)
    requires
        i < ts@.len(),
    ensures
        b@ == declaration_branch(triples_view(ts@), i as int, domain, *old(fresh)),
        *final(fresh) == next_number(next_number(*old(fresh))),
{
    let predicate: String = fresh_var("pred", fresh);
    let other: String = fresh_var("node", fresh);
    let entity: Node = ts[i].subject.clone();
    let t: Triple = if domain {
        Triple {
            subject: entity,
            predicate: Node::Variable(predicate.clone()),
            object: Node::Variable(other),
        }
    } else {
        Triple {
            subject: Node::Variable(other),
            predicate: Node::Variable(predicate.clone()),
            object: entity,
        }
    };
    assert(triples_view(ts@)[i as int] == ts@[i as int]@);
    Branch {
        subject: Node::Variable(predicate),
        path: make_declaration_path(domain),
        object: ts[i].object.clone(),
        patterns: with_triple(ts, i, t),
    }
}

fn make_sub_property(ts: &Vec<Triple>, i: usize, fresh: &mut u64) -> (b: Branch)
    requires
        i < ts@.len(),
    ensures
        b@ == sub_property_branch(triples_view(ts@), i as int, *old(fresh)),
        *final(fresh) == next_number(*old(fresh)),
{
    let property: String = fresh_var("prop", fresh);
    let t: Triple = Triple {
        subject: ts[i].subject.clone(),
        predicate: Node::Variable(property.clone()),
        object: ts[i].object.clone(),
    };
    assert(triples_view(ts@)[i as int] == ts@[i as int]@);
    Branch {
        subject: Node::Variable(property),
        path: make_one_or_more("http://www.w3.org/2000/01/rdf-schema#subPropertyOf"),
        object: ts[i].predicate.clone(),
        patterns: with_triple(ts, i, t),
    }
}

/// The alternatives for a basic graph pattern.
pub fn inference_branches(patterns: &Vec<Triple>, fresh: &mut u64) -> (bs: Vec<Branch>)
    ensures
        (branches_view(bs@), *final(fresh)) == branches_of(
            triples_view(patterns@),
            patterns@.len() as int,
            *old(fresh),
        ),
{
    let ghost ts = triples_view(patterns@);
    let ghost n = *fresh;
    let mut bs: Vec<Branch> = Vec::new();
    let mut i: usize = 0;
    assert(branches_view(bs@) =~= Seq::<BranchView>::empty());
    while i < patterns.len()
        invariant
            ts == triples_view(patterns@),
            n == *old(fresh),
            i <= patterns@.len(),
            (branches_view(bs@), *fresh) == branches_of(ts, i as int, n),
        decreases patterns@.len() - i,
    {
        let ghost before = branches_view(bs@);
        assert(ts[i as int] == patterns@[i as int]@);
        if is_type_predicate(&patterns[i].predicate) {
            let a: Branch = make_super_class(patterns, i, fresh);
            let b: Branch = make_declaration(patterns, i, true, fresh);
            let c: Branch = make_declaration(patterns, i, false, fresh);
            bs.push(a);
            bs.push(b);
            bs.push(c);
            assert(branches_view(bs@) =~= before.push(a@).push(b@).push(c@));
        } else {
            let a: Branch = make_sub_property(patterns, i, fresh);
            bs.push(a);
            assert(branches_view(bs@) =~= before.push(a@));
        }
        i += 1;
    }
    bs
}

fn push_column(vars: &mut Vec<String>, n: &Node)
    ensures
        texts(final(vars)@) == texts(old(vars)@) + node_vars(n@),
{
    let ghost before = texts(vars@);
    match node_name(n) {
        Some(v) => {
            let ghost name = v@;
            vars.push(v);
            assert(texts(vars@) =~= before + seq![name]);
        },
        None => {
            assert(texts(vars@) =~= before + Seq::<Seq<char>>::empty());
        },
    }
}

/// The columns that a basic graph pattern binds.
fn find_columns(patterns: &Vec<Triple>) -> (vars: Vec<String>)
    ensures
        texts(vars@) == projected_variables(triples_view(patterns@)),
{
    let ghost ts = triples_view(patterns@);
    let mut vars: Vec<String> = Vec::new();
    let mut i: usize = 0;
    proof {
        assert(ts.take(0) =~= Seq::<TripleView>::empty());
        assert(texts(vars@) =~= Seq::<Seq<char>>::empty());
    }
    while i < patterns.len()
        invariant
            ts == triples_view(patterns@),
            i <= patterns@.len(),
            texts(vars@) == projected_variables(ts.take(i as int)),
        decreases patterns@.len() - i,
    {
        let mut own: Vec<String> = Vec::new();
        assert(texts(own@) =~= Seq::<Seq<char>>::empty());
        push_column(&mut own, &patterns[i].subject);
        push_column(&mut own, &patterns[i].predicate);
        push_column(&mut own, &patterns[i].object);
        proof {
            let t = ts[i as int];
            assert(t == patterns@[i as int]@);
            assert(ts.take(i + 1).drop_last() =~= ts.take(i as int));
            assert(texts(own@) =~= node_vars(t.subject) + node_vars(t.predicate) + node_vars(
                t.object,
            ));
        }
        vars = merge_vars(&vars, &own);
        i += 1;
    }
    assert(ts.take(i as int) =~= ts);
    vars
}

/// A basic graph pattern with its alternatives.
fn rewrite_bgp(patterns: Vec<Triple>, fresh: &mut u64) -> (r: Pattern)
    ensures
        (r.view(), *final(fresh)) == rewritten(
            PatternView::Bgp(triples_view(patterns@)),
            *old(fresh),
        ),
{
    let ghost ts = triples_view(patterns@);
    let branches: Vec<Branch> = inference_branches(&patterns, fresh);
    let ghost bs = branches_view(branches@);
    if branches.len() == 0 {
        assert(bs.len() == 0);
        return Pattern::Bgp(patterns);
    }
    let variables: Vec<String> = find_columns(&patterns);
    let n: usize = branches.len();
    let mut rest: Vec<Branch> = branches;
    let mut union: Pattern = Pattern::Bgp(patterns);
    let mut k: usize = 0;
    proof {
        assert(rest@ =~= branches@.skip(0));
    }
    while k < n
        invariant
            k <= n,
            n == bs.len(),
            branches_view(rest@) == bs.skip(k as int),
            union.view() == alternatives(PatternView::Bgp(ts), bs, k as int),
        decreases n - k,
    {
        let ghost before = rest@;
        assert(branches_view(before).len() == before.len());
        let b: Branch = rest.remove(0);
        proof {
            assert(branches_view(before)[0] == before[0]@);
            assert(b@ == bs[k as int]);
            assert forall|j: int| 0 <= j < rest@.len() implies branches_view(rest@)[j] == bs.skip(
                k + 1,
            )[j] by {
                assert(rest@[j] == before[j + 1]);
                assert(branches_view(before)[j + 1] == before[j + 1]@);
            }
            assert(branches_view(rest@) =~= bs.skip(k + 1));
        }
        union = Pattern::Union(Box::new(union), Box::new(b.into_pattern()));
        k += 1;
    }
    let project: Pattern = Pattern::Project(variables, Box::new(union));
    assert(project.view() == PatternView::Project(
        projected_variables(ts),
        Box::new(union.view()),
    ));
    Pattern::Distinct(Box::new(project))
}

fn rewrite_gp(gp: Pattern, fresh: &mut u64) -> (r: Pattern)
    ensures
        (r.view(), *final(fresh)) == rewritten(gp.view(), *old(fresh)),
    decreases gp,
{
    match gp {
        Pattern::Bgp(ts) => rewrite_bgp(ts, fresh),
        Pattern::Join(a, b) => {
            let x: Pattern = rewrite_gp(*a, fresh);
            let y: Pattern = rewrite_gp(*b, fresh);
            Pattern::Join(Box::new(x), Box::new(y))
        },
        Pattern::LeftJoin(a, b, e) => {
            let x: Pattern = rewrite_gp(*a, fresh);
            let y: Pattern = rewrite_gp(*b, fresh);
            Pattern::LeftJoin(Box::new(x), Box::new(y), e)
        },
        Pattern::Union(a, b) => {
            let x: Pattern = rewrite_gp(*a, fresh);
            let y: Pattern = rewrite_gp(*b, fresh);
            Pattern::Union(Box::new(x), Box::new(y))
        },
        Pattern::Minus(a, b) => {
            let x: Pattern = rewrite_gp(*a, fresh);
            let y: Pattern = rewrite_gp(*b, fresh);
            Pattern::Minus(Box::new(x), Box::new(y))
        },
        Pattern::Filter(e, q) => Pattern::Filter(e, Box::new(rewrite_gp(*q, fresh))),
        Pattern::Extend(q, v, e) => Pattern::Extend(Box::new(rewrite_gp(*q, fresh)), v, e),
        Pattern::Group(by, aggs, q) => Pattern::Group(by, aggs, Box::new(rewrite_gp(*q, fresh))),
        Pattern::Project(vars, q) => Pattern::Project(vars, Box::new(rewrite_gp(*q, fresh))),
        Pattern::Distinct(q) => Pattern::Distinct(Box::new(rewrite_gp(*q, fresh))),
        Pattern::Reduced(q) => Pattern::Reduced(Box::new(rewrite_gp(*q, fresh))),
        Pattern::Slice(start, length, q) => Pattern::Slice(
            start,
            length,
            Box::new(rewrite_gp(*q, fresh)),
        ),
        Pattern::Order(orders, q) => Pattern::Order(orders, Box::new(rewrite_gp(*q, fresh))),
        Pattern::Path(s, p, o) => Pattern::Path(s, p, o),
        Pattern::Values => Pattern::Values,
        Pattern::Service(q) => Pattern::Service(q),
        Pattern::Graph(q) => Pattern::Graph(q),
    }
}

/// Extends a pattern by what follows from the schema.
pub fn rewrite(pattern: Pattern) -> (r: Pattern)
    ensures
        r.view() == rewritten(pattern.view(), 0).0,
{
    let mut fresh: u64 = 0;
    rewrite_gp(pattern, &mut fresh)
}

// --- What inference keeps --------------------------------------------------------------

/// Over identifiers a basic graph pattern has the same columns.
pub proof fn lemma_columns_known(keys: Seq<Seq<char>>, ts: Seq<TripleView>)
    requires
        id_triples(keys, ts) is Some,
    ensures
        pattern_vars(id_triples(keys, ts)->0) == projected_variables(ts),
    decreases ts.len(),
{
    if ts.len() > 0 {
        lemma_columns_known(keys, ts.drop_last());
        let t = ts.last();
        let ps = id_triples(keys, ts)->0;
        let before = id_triples(keys, ts.drop_last())->0;
        assert(ps.drop_last() =~= before);
        assert(triple_vars(ps.last()) =~= node_vars(t.subject) + node_vars(t.predicate) + node_vars(
            t.object,
        ));
    } else {
        assert(pattern_vars(Seq::<PatTriple>::empty()) =~= Seq::<Seq<char>>::empty());
    }
}

proof fn lemma_merged_begins(seen: Seq<Seq<char>>, more: Seq<Seq<char>>)
    ensures
        seen.is_prefix_of(merged_names(seen, more)),
    decreases more.len(),
{
    if more.len() > 0 {
        lemma_merged_begins(seen, more.drop_last());
        let before = merged_names(seen, more.drop_last());
        let all = merged_names(seen, more);
        assert(before.is_prefix_of(all));
        assert(seen =~= all.take(seen.len() as int));
    }
}

proof fn lemma_place_in_prefix(v: Seq<Seq<char>>, all: Seq<Seq<char>>, i: int, from: int)
    requires
        v.no_duplicates(),
        v.is_prefix_of(all),
        0 <= from <= i < v.len(),
    ensures
        place_from(all, v[i], from) == i,
    decreases i - from,
{
    assert(all[from] == v[from]);
    if from < i {
        assert(v[from] != v[i]);
        lemma_place_in_prefix(v, all, i, from + 1);
    }
}

/// The table has the columns `v` in front, and `row` begins one of its rows.
spec fn begins_row(t: Table, v: Seq<Seq<char>>, row: Seq<u32>) -> bool {
    &&& v.is_prefix_of(t.vars)
    &&& exists|k: int|
        0 <= k < t.rows.len() && (#[trigger] t.rows[k]).len() == t.vars.len() && row.is_prefix_of(
            t.rows[k],
        )
}

proof fn lemma_union_begins(l: Table, r: Table, v: Seq<Seq<char>>, row: Seq<u32>)
    requires
        v.no_duplicates(),
        row.len() == v.len(),
        begins_row(l, v, row),
    ensures
        begins_row(union_tables(l, r), v, row),
{
    let u = union_tables(l, r);
    lemma_merged_begins(l.vars, r.vars);
    assert(v =~= u.vars.take(v.len() as int));
    let k = choose|k: int|
        0 <= k < l.rows.len() && (#[trigger] l.rows[k]).len() == l.vars.len() && row.is_prefix_of(
            l.rows[k],
        );
    assert(u.rows[k] == aligned(u.vars, l.vars, l.rows[k]));
    assert forall|i: int| 0 <= i < row.len() implies u.rows[k][i] == row[i] by {
        lemma_place_in_prefix(v, l.vars, i, 0);
        assert(u.vars[i] == v[i]);
        assert(l.rows[k][i] == row[i]);
    }
    assert(row =~= u.rows[k].take(row.len() as int));
}

proof fn lemma_alternatives_keep(
    s: Setting,
    keys: Seq<Seq<char>>,
    ts: Seq<TripleView>,
    bs: Seq<BranchView>,
    k: int,
    v: Seq<Seq<char>>,
    row: Seq<u32>,
)
    requires
        0 <= k <= bs.len(),
        v.no_duplicates(),
        row.len() == v.len(),
        solved(s, keys, PatternView::Bgp(ts), None).0 is Ok,
        begins_row(solved(s, keys, PatternView::Bgp(ts), None).0->Ok_0, v, row),
        solved(s, keys, alternatives(PatternView::Bgp(ts), bs, k), None).0 is Ok,
    ensures
        begins_row(
            solved(s, keys, alternatives(PatternView::Bgp(ts), bs, k), None).0->Ok_0,
            v,
            row,
        ),
    decreases k,
{
    if k > 0 {
        let before = alternatives(PatternView::Bgp(ts), bs, k - 1);
        let (l, after) = solved(s, keys, before, None);
        assert(l is Ok);
        lemma_alternatives_keep(s, keys, ts, bs, k - 1, v, row);
        let r = solved(s, after, branch_pattern(bs[k - 1]), None).0;
        assert(r is Ok);
        lemma_union_begins(l->Ok_0, r->Ok_0, v, row);
    }
}

/// Inference only adds: every solution of a basic graph pattern is a solution of
/// the pattern with inference, as far as both can be evaluated.
pub proof fn law_inference_keeps_solutions(
    s: Setting,
    keys: Seq<Seq<char>>,
    ts: Seq<TripleView>,
    n: u64,
    i: int,
)
    requires
        solved(s, keys, PatternView::Bgp(ts), None).0 is Ok,
        solved(s, keys, rewritten(PatternView::Bgp(ts), n).0, None).0 is Ok,
        table_ok(solved(s, keys, PatternView::Bgp(ts), None).0->Ok_0),
        projected_variables(ts).len() <= usize::MAX,
        0 <= i < (solved(s, keys, PatternView::Bgp(ts), None).0->Ok_0).rows.len(),
    ensures
        ({
            let plain = solved(s, keys, PatternView::Bgp(ts), None).0->Ok_0;
            let more = solved(s, keys, rewritten(PatternView::Bgp(ts), n).0, None).0->Ok_0;
            more.vars == plain.vars && more.rows.contains(plain.rows[i])
        }),
{
    let bgp = PatternView::Bgp(ts);
    let plain = solved(s, keys, bgp, None).0->Ok_0;
    let (bs, _) = branches_of(ts, ts.len() as int, n);
    let q = rewritten(bgp, n).0;
    if bs.len() > 0 {
        let alts = alternatives(bgp, bs, bs.len() as int);
        let v = plain.vars;
        let row = plain.rows[i];
        assert(id_triples(keys, ts) is Some);
        let ps = id_triples(keys, ts)->0;
        lemma_columns_known(keys, ts);
        law_pattern_vars(ps);
        assert(v == projected_variables(ts));
        let m = peeled(q);
        assert(m.pattern == alts);
        assert(m.projection == Some(v));
        assert(m.distinct && m.order_by.len() == 0 && m.limit is None && m.offset == 0);
        let (r, after) = solved(s, keys, alts, None);
        assert(r is Ok);
        assert(row =~= row.take(row.len() as int));
        assert(v =~= v.take(v.len() as int));
        assert(begins_row(plain, v, row));
        lemma_alternatives_keep(s, keys, ts, bs, bs.len() as int, v, row);
        let t = r->Ok_0;
        let k = choose|k: int|
            0 <= k < t.rows.len() && (#[trigger] t.rows[k]).len() == t.vars.len()
                && row.is_prefix_of(t.rows[k]);
        let narrow = projected(t.vars, v, t.rows);
        assert(narrow[k] =~= row) by {
            assert forall|j: int| 0 <= j < v.len() implies narrow[k][j] == row[j] by {
                lemma_place_in_prefix(v, t.vars, j, 0);
                assert(t.rows[k][j] == row[j]);
            }
        }
        assert(narrow.contains(row));
        assert forall|j: int| 0 <= j < narrow.len() implies (#[trigger] narrow[j]).len() == v.len() by {}
        law_rows_in_order(narrow, v.len());
        let once = rows_in_order(narrow);
        assert(sliced(once, 0, None) =~= once);
    }
}

} // verus!
