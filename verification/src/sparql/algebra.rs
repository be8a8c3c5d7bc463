//! The algebra of queries and updates.
//!
//! Every type has a mathematical counterpart with the suffix `View`, in which
//! text is a sequence of characters.

use crate::hypertrie::dictionary::{TermKind, TermType};
use vstd::prelude::*;

verus! {

/// A position of a triple or path pattern.
#[derive(Debug)]
pub enum Node {
    /// A known term: its text and its type.
    Known(String, TermType),
    /// A blank node: a variable that is never shown.
    Blank(String),
    Variable(String),
}

#[verifier::ext_equal]
pub enum NodeView {
    Known(Seq<char>, TermKind),
    Blank(Seq<char>),
    Variable(Seq<char>),
}

impl View for Node {
    type V = NodeView;

    open spec fn view(&self) -> NodeView {
        match self {
            Node::Known(v, t) => NodeView::Known(v@, t@),
            Node::Blank(l) => NodeView::Blank(l@),
            Node::Variable(n) => NodeView::Variable(n@),
        }
    }
}

impl Clone for Node {
    fn clone(&self) -> (r: Node)
        ensures
            r@ == self@,
    {
        match self {
            Node::Known(v, t) => Node::Known(v.clone(), t.clone()),
            Node::Blank(l) => Node::Blank(l.clone()),
            Node::Variable(n) => Node::Variable(n.clone()),
        }
    }
}

#[derive(Debug)]
pub struct Triple {
    pub subject: Node,
    pub predicate: Node,
    pub object: Node,
}

#[verifier::ext_equal]
pub struct TripleView {
    pub subject: NodeView,
    pub predicate: NodeView,
    pub object: NodeView,
}

impl View for Triple {
    type V = TripleView;

    open spec fn view(&self) -> TripleView {
        TripleView { subject: self.subject@, predicate: self.predicate@, object: self.object@ }
    }
}

impl Clone for Triple {
    fn clone(&self) -> (r: Triple)
        ensures
            r@ == self@,
    {
        Triple {
            subject: self.subject.clone(),
            predicate: self.predicate.clone(),
            object: self.object.clone(),
        }
    }
}

pub open spec fn triples_view(ts: Seq<Triple>) -> Seq<TripleView> {
    ts.map_values(|t: Triple| t@)
}

/// The texts of a list of strings.
pub open spec fn texts(v: Seq<String>) -> Seq<Seq<char>> {
    v.map_values(|s: String| s@)
}

/// A property path.
#[derive(Debug)]
pub enum PathExpr {
    Link(String),
    Reverse(Box<PathExpr>),
    Sequence(Box<PathExpr>, Box<PathExpr>),
    Alternative(Box<PathExpr>, Box<PathExpr>),
    ZeroOrMore(Box<PathExpr>),
    OneOrMore(Box<PathExpr>),
    ZeroOrOne(Box<PathExpr>),
    /// Any predicate but these.
    Negated(Vec<String>),
}

#[verifier::ext_equal]
pub enum PathView {
    Link(Seq<char>),
    Reverse(Box<PathView>),
    Sequence(Box<PathView>, Box<PathView>),
    Alternative(Box<PathView>, Box<PathView>),
    ZeroOrMore(Box<PathView>),
    OneOrMore(Box<PathView>),
    ZeroOrOne(Box<PathView>),
    Negated(Seq<Seq<char>>),
}

impl PathExpr {
    pub open spec fn view(&self) -> PathView
        decreases self,
    {
        match self {
            PathExpr::Link(p) => PathView::Link(p@),
            PathExpr::Reverse(e) => PathView::Reverse(Box::new(e.view())),
            PathExpr::Sequence(a, b) => PathView::Sequence(Box::new(a.view()), Box::new(b.view())),
            PathExpr::Alternative(a, b) => PathView::Alternative(
                Box::new(a.view()),
                Box::new(b.view()),
            ),
            PathExpr::ZeroOrMore(e) => PathView::ZeroOrMore(Box::new(e.view())),
            PathExpr::OneOrMore(e) => PathView::OneOrMore(Box::new(e.view())),
            PathExpr::ZeroOrOne(e) => PathView::ZeroOrOne(Box::new(e.view())),
            PathExpr::Negated(ps) => PathView::Negated(texts(ps@)),
        }
    }
}

#[derive(Debug, Clone, Copy, PartialEq, Eq, Structural)]
pub enum BinaryOp {
    Or,
    And,
    Equal,
    SameTerm,
    Greater,
    GreaterOrEqual,
    Less,
    LessOrEqual,
    Plus,
    Minus,
    Times,
    Divide,
}

#[derive(Debug, Clone, Copy, PartialEq, Eq, Structural)]
pub enum UnaryOp {
    Not,
    Plus,
    Minus,
}

#[derive(Debug, Clone, Copy, PartialEq, Eq, Structural)]
pub enum Function {
    Str,
    Lang,
    Datatype,
    StrLen,
    UCase,
    LCase,
    Contains,
    StrStarts,
    StrEnds,
    IsIri,
    IsBlank,
    IsLiteral,
    IsNumeric,
    Regex,
}

/// An expression.
#[derive(Debug)]
pub enum Expr {
    /// A known term: its text and its type.
    Known(String, TermType),
    Variable(String),
    Binary(BinaryOp, Box<Expr>, Box<Expr>),
    Unary(UnaryOp, Box<Expr>),
    Bound(String),
    In(Box<Expr>, Vec<Expr>),
    If(Box<Expr>, Box<Expr>, Box<Expr>),
    Call(Function, Vec<Expr>),
    /// Something that cannot be evaluated, by name.
    Unsupported(String),
}

#[verifier::ext_equal]
pub enum ExprView {
    Known(Seq<char>, TermKind),
    Variable(Seq<char>),
    Binary(BinaryOp, Box<ExprView>, Box<ExprView>),
    Unary(UnaryOp, Box<ExprView>),
    Bound(Seq<char>),
    In(Box<ExprView>, Seq<ExprView>),
    If(Box<ExprView>, Box<ExprView>, Box<ExprView>),
    Call(Function, Seq<ExprView>),
    Unsupported(Seq<char>),
}

impl Expr {
    pub open spec fn view(&self) -> ExprView
        decreases self,
    {
        match self {
            Expr::Known(v, t) => ExprView::Known(v@, t@),
            Expr::Variable(n) => ExprView::Variable(n@),
            Expr::Binary(op, a, b) => ExprView::Binary(*op, Box::new(a.view()), Box::new(b.view())),
            Expr::Unary(op, a) => ExprView::Unary(*op, Box::new(a.view())),
            Expr::Bound(n) => ExprView::Bound(n@),
            Expr::In(e, list) => ExprView::In(
                Box::new(e.view()),
                Seq::new(
                    list@.len(),
                    |i: int|
                        if 0 <= i < list@.len() {
                            list@[i].view()
                        } else {
                            arbitrary()
                        },
                ),
            ),
            Expr::If(c, a, b) => ExprView::If(
                Box::new(c.view()),
                Box::new(a.view()),
                Box::new(b.view()),
            ),
            Expr::Call(f, args) => ExprView::Call(
                *f,
                Seq::new(
                    args@.len(),
                    |i: int|
                        if 0 <= i < args@.len() {
                            args@[i].view()
                        } else {
                            arbitrary()
                        },
                ),
            ),
            Expr::Unsupported(n) => ExprView::Unsupported(n@),
        }
    }
}

pub open spec fn exprs_view(es: Seq<Expr>) -> Seq<ExprView> {
    es.map_values(|e: Expr| e.view())
}

#[derive(Debug)]
pub enum AggregateFn {
    Count,
    Sum,
    Avg,
    Min,
    Max,
    Sample,
    /// Concatenation with a separator.
    Concat(String),
    /// One that cannot be computed, by name.
    Unsupported(String),
}

#[verifier::ext_equal]
pub enum AggregateFnView {
    Count,
    Sum,
    Avg,
    Min,
    Max,
    Sample,
    Concat(Seq<char>),
    Unsupported(Seq<char>),
}

impl View for AggregateFn {
    type V = AggregateFnView;

    open spec fn view(&self) -> AggregateFnView {
        match self {
            AggregateFn::Count => AggregateFnView::Count,
            AggregateFn::Sum => AggregateFnView::Sum,
            AggregateFn::Avg => AggregateFnView::Avg,
            AggregateFn::Min => AggregateFnView::Min,
            AggregateFn::Max => AggregateFnView::Max,
            AggregateFn::Sample => AggregateFnView::Sample,
            AggregateFn::Concat(s) => AggregateFnView::Concat(s@),
            AggregateFn::Unsupported(s) => AggregateFnView::Unsupported(s@),
        }
    }
}

/// One aggregate of a group: what is computed and the variable that gets it.
/// Without an argument whole solutions are counted.
#[derive(Debug)]
pub struct Aggregate {
    pub function: AggregateFn,
    pub distinct: bool,
    pub argument: Option<Expr>,
    pub variable: String,
}

#[verifier::ext_equal]
pub struct AggregateView {
    pub function: AggregateFnView,
    pub distinct: bool,
    pub argument: Option<ExprView>,
    pub variable: Seq<char>,
}

impl View for Aggregate {
    type V = AggregateView;

    open spec fn view(&self) -> AggregateView {
        AggregateView {
            function: self.function@,
            distinct: self.distinct,
            argument: match self.argument {
                Some(e) => Some(e.view()),
                None => None,
            },
            variable: self.variable@,
        }
    }
}

pub open spec fn aggregates_view(v: Seq<Aggregate>) -> Seq<AggregateView> {
    v.map_values(|a: Aggregate| a@)
}

/// A sort criterion.
#[derive(Debug)]
pub struct OrderBy {
    pub expr: Expr,
    pub descending: bool,
}

#[verifier::ext_equal]
pub struct OrderByView {
    pub expr: ExprView,
    pub descending: bool,
}

impl View for OrderBy {
    type V = OrderByView;

    open spec fn view(&self) -> OrderByView {
        OrderByView { expr: self.expr.view(), descending: self.descending }
    }
}

pub open spec fn orders_view(v: Seq<OrderBy>) -> Seq<OrderByView> {
    v.map_values(|o: OrderBy| o@)
}

/// A graph pattern.
#[derive(Debug)]
pub enum Pattern {
    Bgp(Vec<Triple>),
    Path(Node, PathExpr, Node),
    Join(Box<Pattern>, Box<Pattern>),
    LeftJoin(Box<Pattern>, Box<Pattern>, Option<Expr>),
    Union(Box<Pattern>, Box<Pattern>),
    Filter(Expr, Box<Pattern>),
    Extend(Box<Pattern>, String, Expr),
    Group(Vec<String>, Vec<Aggregate>, Box<Pattern>),
    Project(Vec<String>, Box<Pattern>),
    Distinct(Box<Pattern>),
    Reduced(Box<Pattern>),
    /// The first solution, the number of solutions if it is bounded.
    Slice(usize, Option<usize>, Box<Pattern>),
    Order(Vec<OrderBy>, Box<Pattern>),
    Minus(Box<Pattern>, Box<Pattern>),
    Graph(Box<Pattern>),
    Service(Box<Pattern>),
    Values,
}

#[verifier::ext_equal]
pub enum PatternView {
    Bgp(Seq<TripleView>),
    Path(NodeView, PathView, NodeView),
    Join(Box<PatternView>, Box<PatternView>),
    LeftJoin(Box<PatternView>, Box<PatternView>, Option<ExprView>),
    Union(Box<PatternView>, Box<PatternView>),
    Filter(ExprView, Box<PatternView>),
    Extend(Box<PatternView>, Seq<char>, ExprView),
    Group(Seq<Seq<char>>, Seq<AggregateView>, Box<PatternView>),
    Project(Seq<Seq<char>>, Box<PatternView>),
    Distinct(Box<PatternView>),
    Reduced(Box<PatternView>),
    Slice(usize, Option<usize>, Box<PatternView>),
    Order(Seq<OrderByView>, Box<PatternView>),
    Minus(Box<PatternView>, Box<PatternView>),
    Graph(Box<PatternView>),
    Service(Box<PatternView>),
    Values,
}

pub open spec fn opt_expr_view(e: Option<Expr>) -> Option<ExprView> {
    match e {
        Some(x) => Some(x.view()),
        None => None,
    }
}

impl Pattern {
    pub open spec fn view(&self) -> PatternView
        decreases self,
    {
        match self {
            Pattern::Bgp(ts) => PatternView::Bgp(triples_view(ts@)),
            Pattern::Path(s, p, o) => PatternView::Path(s@, p.view(), o@),
            Pattern::Join(a, b) => PatternView::Join(Box::new(a.view()), Box::new(b.view())),
            Pattern::LeftJoin(a, b, e) => PatternView::LeftJoin(
                Box::new(a.view()),
                Box::new(b.view()),
                opt_expr_view(*e),
            ),
            Pattern::Union(a, b) => PatternView::Union(Box::new(a.view()), Box::new(b.view())),
            Pattern::Filter(e, p) => PatternView::Filter(e.view(), Box::new(p.view())),
            Pattern::Extend(p, v, e) => PatternView::Extend(Box::new(p.view()), v@, e.view()),
            Pattern::Group(vs, aggs, p) => PatternView::Group(
                texts(vs@),
                aggregates_view(aggs@),
                Box::new(p.view()),
            ),
            Pattern::Project(vs, p) => PatternView::Project(texts(vs@), Box::new(p.view())),
            Pattern::Distinct(p) => PatternView::Distinct(Box::new(p.view())),
            Pattern::Reduced(p) => PatternView::Reduced(Box::new(p.view())),
            Pattern::Slice(s, l, p) => PatternView::Slice(*s, *l, Box::new(p.view())),
            Pattern::Order(os, p) => PatternView::Order(orders_view(os@), Box::new(p.view())),
            Pattern::Minus(a, b) => PatternView::Minus(Box::new(a.view()), Box::new(b.view())),
            Pattern::Graph(p) => PatternView::Graph(Box::new(p.view())),
            Pattern::Service(p) => PatternView::Service(Box::new(p.view())),
            Pattern::Values => PatternView::Values,
        }
    }
}

/// A query.
#[derive(Debug)]
pub enum Query {
    Select(Pattern),
    Ask(Pattern),
    /// Any other form.
    Other,
}

#[verifier::ext_equal]
pub enum QueryView {
    Select(PatternView),
    Ask(PatternView),
    Other,
}

impl View for Query {
    type V = QueryView;

    open spec fn view(&self) -> QueryView {
        match self {
            Query::Select(p) => QueryView::Select(p.view()),
            Query::Ask(p) => QueryView::Ask(p.view()),
            Query::Other => QueryView::Other,
        }
    }
}

/// One operation of an update.
#[derive(Debug)]
pub enum UpdateOp {
    Insert(Vec<Triple>),
    Delete(Vec<Triple>),
    /// Any other operation.
    Other,
}

#[verifier::ext_equal]
pub enum UpdateOpView {
    Insert(Seq<TripleView>),
    Delete(Seq<TripleView>),
    Other,
}

impl View for UpdateOp {
    type V = UpdateOpView;

    open spec fn view(&self) -> UpdateOpView {
        match self {
            UpdateOp::Insert(ts) => UpdateOpView::Insert(triples_view(ts@)),
            UpdateOp::Delete(ts) => UpdateOpView::Delete(triples_view(ts@)),
            UpdateOp::Other => UpdateOpView::Other,
        }
    }
}

pub open spec fn ops_view(v: Seq<UpdateOp>) -> Seq<UpdateOpView> {
    v.map_values(|o: UpdateOp| o@)
}

} // verus!
