//! Reads the algebra from its text form.

use crate::hypertrie::dictionary::{TermKind, TermType};
use crate::hypertrie::export::{parse_term, term_rest};
use crate::sparql::algebra::{
    aggregates_view, exprs_view, ops_view, orders_view, texts, triples_view, Aggregate, AggregateFn,
    AggregateFnView, AggregateView, BinaryOp, Expr, ExprView, Function, Node, NodeView, OrderBy,
    OrderByView, PathExpr, PathView, Pattern, PatternView, Query, QueryView, Triple, TripleView,
    UnaryOp, UpdateOp, UpdateOpView,
};
use crate::sparql::sse::{lemma_list_view, read_sexp, tree_of, trees, Sexp, Tree};
use crate::text::{chars_of, parse_usize, parsed_usize, same_text, string_of};
use vstd::prelude::*;
use vstd::slice::slice_subrange;

verus! {

// --- Words ---------------------------------------------------------------------

/// The items of a list; none for a word.
pub open spec fn items(t: Tree) -> Seq<Tree> {
    match t {
        Tree::List(v) => v,
        Tree::Atom(_) => Seq::empty(),
    }
}

/// The word at the head of a list.
pub open spec fn head(t: Tree) -> Seq<char> {
    match t {
        Tree::List(v) => if v.len() > 0 {
            match v[0] {
                Tree::Atom(a) => a,
                Tree::List(_) => Seq::empty(),
            }
        } else {
            Seq::empty()
        },
        Tree::Atom(_) => Seq::empty(),
    }
}

/// A list with the given head and `n` more items.
pub open spec fn is_form(t: Tree, h: Seq<char>, n: int) -> bool {
    t is List && head(t) == h && items(t).len() == n + 1
}

fn is_word(x: &Sexp, w: &str) -> (r: bool)
    ensures
        r == (x.view() == Tree::Atom(w@)),
{
    match x {
        Sexp::Atom(a) => same_text(a.as_str(), w),
        Sexp::List(_) => false,
    }
}

/// The items of a list.
fn list_of(x: &Sexp) -> (r: Option<&Vec<Sexp>>)
    ensures
        match r {
            Some(v) => *x == Sexp::List(*v) && x.view() == Tree::List(trees(v@)),
            None => x.view() is Atom,
        },
{
    match x {
        Sexp::List(v) => {
            proof {
                lemma_list_view(*x);
            }
            Some(v)
        },
        Sexp::Atom(_) => None,
    }
}

/// The head word of a list, or an empty text.
fn head_of(v: &Vec<Sexp>) -> (h: &str)
    ensures
        h@ == head(Tree::List(trees(v@))),
{
    if v.len() > 0 {
        assert(trees(v@)[0] == v@[0].view());
        match &v[0] {
            Sexp::Atom(a) => a.as_str(),
            Sexp::List(_) => {
                proof {
                    lemma_list_view(v@[0]);
                }
                empty_text()
            },
        }
    } else {
        empty_text()
    }
}

fn empty_text() -> (s: &'static str)
    ensures
        s@ == Seq::<char>::empty(),
{
    proof {
        reveal_strlit("");
    }
    assert(""@ =~= Seq::<char>::empty());
    ""
}

/// The name of a variable.
pub open spec fn variable_read(t: Tree) -> Option<Seq<char>> {
    match t {
        Tree::Atom(a) => if a.len() > 0 && a[0] == '?' {
            Some(a.skip(1))
        } else {
            None
        },
        Tree::List(_) => None,
    }
}

fn read_variable(x: &Sexp) -> (r: Option<String>)
    ensures
        match r {
            Some(n) => variable_read(x.view()) == Some(n@),
            None => variable_read(x.view()) is None,
        },
{
    match x {
        Sexp::Atom(a) => {
            let cs: Vec<char> = chars_of(a.as_str());
            if cs.len() > 0 && cs[0] == '?' {
                let n: String = string_of(slice_subrange(cs.as_slice(), 1, cs.len()));
                assert(n@ =~= a@.skip(1));
                Some(n)
            } else {
                None
            }
        },
        Sexp::List(_) => {
            proof {
                lemma_list_view(*x);
            }
            None
        },
    }
}

pub open spec fn variables_read(ts: Seq<Tree>) -> Option<Seq<Seq<char>>>
    decreases ts.len(),
{
    if ts.len() == 0 {
        Some(Seq::empty())
    } else {
        match (variables_read(ts.drop_last()), variable_read(ts.last())) {
            (Some(v), Some(n)) => Some(v.push(n)),
            _ => None,
        }
    }
}

proof fn lemma_variables_prefix(ts: Seq<Tree>, i: int)
    requires
        0 <= i <= ts.len(),
        variables_read(ts.take(i)) is None,
    ensures
        variables_read(ts) is None,
    decreases ts.len() - i,
{
    if i < ts.len() {
        assert(ts.take(i + 1).drop_last() =~= ts.take(i));
        lemma_variables_prefix(ts, i + 1);
    } else {
        assert(ts.take(i) =~= ts);
    }
}

fn read_variables(v: &Vec<Sexp>) -> (r: Option<Vec<String>>)
    ensures
        match r {
            Some(ns) => variables_read(trees(v@)) == Some(texts(ns@)),
            None => variables_read(trees(v@)) is None,
        },
{
    let mut out: Vec<String> = Vec::new();
    let mut i: usize = 0;
    let ghost ts = trees(v@);
    proof {
        assert(ts.take(0) =~= Seq::<Tree>::empty());
        assert(texts(out@) =~= Seq::<Seq<char>>::empty());
    }
    while i < v.len()
        invariant
            i <= v@.len(),
            ts == trees(v@),
            variables_read(ts.take(i as int)) == Some(texts(out@)),
        decreases v@.len() - i,
    {
        proof {
            assert(ts.take(i + 1).drop_last() =~= ts.take(i as int));
            assert(ts.take(i + 1).last() == v@[i as int].view());
        }
        match read_variable(&v[i]) {
            Some(n) => {
                let ghost before = texts(out@);
                out.push(n);
                assert(texts(out@) =~= before.push(n@));
            },
            None => {
                proof {
                    lemma_variables_prefix(ts, i + 1);
                }
                return None;
            },
        }
        i += 1;
    }
    assert(ts.take(i as int) =~= ts);
    Some(out)
}

// --- Terms and triples -----------------------------------------------------------

/// A variable, or a term in its usual notation.
pub open spec fn node_read(t: Tree) -> Option<NodeView> {
    match t {
        Tree::Atom(a) => if a.len() > 0 && a[0] == '?' {
            Some(NodeView::Variable(a.skip(1)))
        } else {
            match term_rest(a) {
                Some((x, rest)) => if rest.len() > 0 {
                    None
                } else if x.typ == TermKind::BlankNode {
                    Some(NodeView::Blank(x.value))
                } else {
                    Some(NodeView::Known(x.value, x.typ))
                },
                None => None,
            }
        },
        Tree::List(_) => None,
    }
}

fn read_node(x: &Sexp) -> (r: Option<Node>)
    ensures
        match r {
            Some(n) => node_read(x.view()) == Some(n@),
            None => node_read(x.view()) is None,
        },
{
    match x {
        Sexp::Atom(a) => {
            let cs: Vec<char> = chars_of(a.as_str());
            if cs.len() > 0 && cs[0] == '?' {
                let n: String = string_of(slice_subrange(cs.as_slice(), 1, cs.len()));
                assert(n@ =~= a@.skip(1));
                return Some(Node::Variable(n));
            }
            assert(cs@.skip(0) =~= a@);
            match parse_term(cs.as_slice(), 0) {
                Some((t, next)) => {
                    if next < cs.len() {
                        return None;
                    }
                    match t.typ {
                        TermType::BlankNode => Some(Node::Blank(t.value)),
                        typ => Some(Node::Known(t.value, typ)),
                    }
                },
                None => None,
            }
        },
        Sexp::List(_) => {
            proof {
                lemma_list_view(*x);
            }
            None
        },
    }
}

pub open spec fn triple_read(t: Tree) -> Option<TripleView> {
    if is_form(t, "triple"@, 3) {
        match (node_read(items(t)[1]), node_read(items(t)[2]), node_read(items(t)[3])) {
            (Some(subject), Some(predicate), Some(object)) => Some(
                TripleView { subject, predicate, object },
            ),
            _ => None,
        }
    } else {
        None
    }
}

fn read_triple(x: &Sexp) -> (r: Option<Triple>)
    ensures
        match r {
            Some(t) => triple_read(x.view()) == Some(t@),
            None => triple_read(x.view()) is None,
        },
{
    match list_of(x) {
        Some(v) => {
            if v.len() != 4 || !same_text(head_of(v), "triple") {
                return None;
            }
            assert(trees(v@)[1] == v@[1].view() && trees(v@)[2] == v@[2].view() && trees(v@)[3]
                == v@[3].view());
            match (read_node(&v[1]), read_node(&v[2]), read_node(&v[3])) {
                (Some(subject), Some(predicate), Some(object)) => Some(
                    Triple { subject, predicate, object },
                ),
                _ => None,
            }
        },
        None => None,
    }
}

/// A triple, or one inside a named graph, whose name is dropped.
pub open spec fn quad_read(t: Tree) -> Option<TripleView> {
    if is_form(t, "graph"@, 2) && items(items(t)[2]).len() == 1 {
        triple_read(items(items(t)[2])[0])
    } else {
        triple_read(t)
    }
}

fn read_quad(x: &Sexp) -> (r: Option<Triple>)
    ensures
        match r {
            Some(t) => quad_read(x.view()) == Some(t@),
            None => quad_read(x.view()) is None,
        },
{
    if let Some(v) = list_of(x) {
        if v.len() == 3 && same_text(head_of(v), "graph") {
            assert(trees(v@)[2] == v@[2].view());
            if let Some(inner) = list_of(&v[2]) {
                if inner.len() == 1 {
                    assert(trees(inner@)[0] == inner@[0].view());
                    return read_triple(&inner[0]);
                }
            }
        }
    }
    read_triple(x)
}

pub open spec fn quads_read(ts: Seq<Tree>) -> Option<Seq<TripleView>>
    decreases ts.len(),
{
    if ts.len() == 0 {
        Some(Seq::empty())
    } else {
        match (quads_read(ts.drop_last()), quad_read(ts.last())) {
            (Some(v), Some(n)) => Some(v.push(n)),
            _ => None,
        }
    }
}

proof fn lemma_quads_prefix(ts: Seq<Tree>, i: int)
    requires
        0 <= i <= ts.len(),
        quads_read(ts.take(i)) is None,
    ensures
        quads_read(ts) is None,
    decreases ts.len() - i,
{
    if i < ts.len() {
        assert(ts.take(i + 1).drop_last() =~= ts.take(i));
        lemma_quads_prefix(ts, i + 1);
    } else {
        assert(ts.take(i) =~= ts);
    }
}

/// Reads the triples of a list, from item `from` on.
fn read_quads(v: &Vec<Sexp>, from: usize) -> (r: Option<Vec<Triple>>)
    requires
        from <= v@.len(),
    ensures
        match r {
            Some(ts) => quads_read(trees(v@).skip(from as int)) == Some(triples_view(ts@)),
            None => quads_read(trees(v@).skip(from as int)) is None,
        },
{
    let mut out: Vec<Triple> = Vec::new();
    let mut i: usize = from;
    let ghost ts = trees(v@).skip(from as int);
    proof {
        assert(ts.take(0) =~= Seq::<Tree>::empty());
        assert(triples_view(out@) =~= Seq::<TripleView>::empty());
    }
    while i < v.len()
        invariant
            from <= i <= v@.len(),
            ts == trees(v@).skip(from as int),
            quads_read(ts.take(i - from)) == Some(triples_view(out@)),
        decreases v@.len() - i,
    {
        proof {
            assert(ts.take(i - from + 1).drop_last() =~= ts.take(i - from));
            assert(ts.take(i - from + 1).last() == v@[i as int].view());
        }
        match read_quad(&v[i]) {
            Some(t) => {
                let ghost before = triples_view(out@);
                out.push(t);
                assert(triples_view(out@) =~= before.push(t@));
            },
            None => {
                proof {
                    lemma_quads_prefix(ts, i - from + 1);
                }
                return None;
            },
        }
        i += 1;
    }
    assert(ts.take(i - from) =~= ts);
    Some(out)
}

// --- Paths -------------------------------------------------------------------------

/// An IRI in angle brackets.
pub open spec fn iri_read(t: Tree) -> Option<Seq<char>> {
    match node_read(t) {
        Some(NodeView::Known(v, TermKind::Iri)) => Some(v),
        _ => None,
    }
}

fn read_iri(x: &Sexp) -> (r: Option<String>)
    ensures
        match r {
            Some(n) => iri_read(x.view()) == Some(n@),
            None => iri_read(x.view()) is None,
        },
{
    match read_node(x) {
        Some(Node::Known(v, TermType::Iri)) => Some(v),
        _ => None,
    }
}

pub open spec fn iris_read(ts: Seq<Tree>) -> Option<Seq<Seq<char>>>
    decreases ts.len(),
{
    if ts.len() == 0 {
        Some(Seq::empty())
    } else {
        match (iris_read(ts.drop_last()), iri_read(ts.last())) {
            (Some(v), Some(n)) => Some(v.push(n)),
            _ => None,
        }
    }
}

proof fn lemma_iris_prefix(ts: Seq<Tree>, i: int)
    requires
        0 <= i <= ts.len(),
        iris_read(ts.take(i)) is None,
    ensures
        iris_read(ts) is None,
    decreases ts.len() - i,
{
    if i < ts.len() {
        assert(ts.take(i + 1).drop_last() =~= ts.take(i));
        lemma_iris_prefix(ts, i + 1);
    } else {
        assert(ts.take(i) =~= ts);
    }
}

fn read_iris(v: &Vec<Sexp>) -> (r: Option<Vec<String>>)
    requires
        v@.len() > 0,
    ensures
        match r {
            Some(ns) => iris_read(trees(v@).skip(1)) == Some(texts(ns@)),
            None => iris_read(trees(v@).skip(1)) is None,
        },
{
    let mut out: Vec<String> = Vec::new();
    let mut i: usize = 1;
    let ghost ts = trees(v@).skip(1);
    proof {
        assert(ts.take(0) =~= Seq::<Tree>::empty());
        assert(texts(out@) =~= Seq::<Seq<char>>::empty());
    }
    while i < v.len()
        invariant
            1 <= i <= v@.len(),
            ts == trees(v@).skip(1),
            iris_read(ts.take(i - 1)) == Some(texts(out@)),
        decreases v@.len() - i,
    {
        proof {
            assert(ts.take(i as int).drop_last() =~= ts.take(i - 1));
            assert(ts.take(i as int).last() == v@[i as int].view());
        }
        match read_iri(&v[i]) {
            Some(n) => {
                let ghost before = texts(out@);
                out.push(n);
                assert(texts(out@) =~= before.push(n@));
            },
            None => {
                proof {
                    lemma_iris_prefix(ts, i as int);
                }
                return None;
            },
        }
        i += 1;
    }
    assert(ts.take(i - 1) =~= ts);
    Some(out)
}

pub open spec fn path_read(t: Tree) -> Option<PathView>
    decreases t,
{
    match t {
        Tree::Atom(_) => match iri_read(t) {
            Some(p) => Some(PathView::Link(p)),
            None => None,
        },
        Tree::List(v) => if head(t) == "notoneof"@ {
            match iris_read(v.skip(1)) {
                Some(ps) => Some(PathView::Negated(ps)),
                None => None,
            }
        } else if v.len() == 2 {
            match path_read(v[1]) {
                Some(e) => if head(t) == "reverse"@ {
                    Some(PathView::Reverse(Box::new(e)))
                } else if head(t) == "path*"@ {
                    Some(PathView::ZeroOrMore(Box::new(e)))
                } else if head(t) == "path+"@ {
                    Some(PathView::OneOrMore(Box::new(e)))
                } else if head(t) == "path?"@ {
                    Some(PathView::ZeroOrOne(Box::new(e)))
                } else {
                    None
                },
                None => None,
            }
        } else if v.len() == 3 {
            match (path_read(v[1]), path_read(v[2])) {
                (Some(a), Some(b)) => if head(t) == "seq"@ {
                    Some(PathView::Sequence(Box::new(a), Box::new(b)))
                } else if head(t) == "alt"@ {
                    Some(PathView::Alternative(Box::new(a), Box::new(b)))
                } else {
                    None
                },
                _ => None,
            }
        } else {
            None
        },
    }
}

fn read_path(x: &Sexp) -> (r: Option<PathExpr>)
    ensures
        match r {
            Some(p) => path_read(x.view()) == Some(p.view()),
            None => path_read(x.view()) is None,
        },
    decreases x,
{
    match list_of(x) {
        None => match read_iri(x) {
            Some(p) => Some(PathExpr::Link(p)),
            None => None,
        },
        Some(v) => {
            let h: &str = head_of(v);
            let ghost ts = trees(v@);
            if same_text(h, "notoneof") {
                if v.len() == 0 {
                    proof {
                        reveal_strlit("notoneof");
                        assert(head(x.view()).len() == 0);
                        assert("notoneof"@.len() == 8);
                    }
                    return None;
                }
                return match read_iris(v) {
                    Some(ps) => Some(PathExpr::Negated(ps)),
                    None => None,
                };
            }
            if v.len() == 2 {
                assert(ts[1] == v@[1].view());
                match read_path(&v[1]) {
                    Some(e) => {
                        if same_text(h, "reverse") {
                            Some(PathExpr::Reverse(Box::new(e)))
                        } else if same_text(h, "path*") {
                            Some(PathExpr::ZeroOrMore(Box::new(e)))
                        } else if same_text(h, "path+") {
                            Some(PathExpr::OneOrMore(Box::new(e)))
                        } else if same_text(h, "path?") {
                            Some(PathExpr::ZeroOrOne(Box::new(e)))
                        } else {
                            None
                        }
                    },
                    None => None,
                }
            } else if v.len() == 3 {
                assert(ts[1] == v@[1].view() && ts[2] == v@[2].view());
                match (read_path(&v[1]), read_path(&v[2])) {
                    (Some(a), Some(b)) => {
                        if same_text(h, "seq") {
                            Some(PathExpr::Sequence(Box::new(a), Box::new(b)))
                        } else if same_text(h, "alt") {
                            Some(PathExpr::Alternative(Box::new(a), Box::new(b)))
                        } else {
                            None
                        }
                    },
                    _ => None,
                }
            } else {
                None
            }
        },
    }
}

// --- Expressions -----------------------------------------------------------------------

pub open spec fn binary_word(h: Seq<char>) -> Option<BinaryOp> {
    if h == "||"@ {
        Some(BinaryOp::Or)
    } else if h == "&&"@ {
        Some(BinaryOp::And)
    } else if h == "="@ {
        Some(BinaryOp::Equal)
    } else if h == "sameTerm"@ {
        Some(BinaryOp::SameTerm)
    } else if h == ">"@ {
        Some(BinaryOp::Greater)
    } else if h == ">="@ {
        Some(BinaryOp::GreaterOrEqual)
    } else if h == "<"@ {
        Some(BinaryOp::Less)
    } else if h == "<="@ {
        Some(BinaryOp::LessOrEqual)
    } else if h == "+"@ {
        Some(BinaryOp::Plus)
    } else if h == "-"@ {
        Some(BinaryOp::Minus)
    } else if h == "*"@ {
        Some(BinaryOp::Times)
    } else if h == "/"@ {
        Some(BinaryOp::Divide)
    } else {
        None
    }
}

fn read_binary(h: &str) -> (r: Option<BinaryOp>)
    ensures
        r == binary_word(h@),
{
    if same_text(h, "||") {
        Some(BinaryOp::Or)
    } else if same_text(h, "&&") {
        Some(BinaryOp::And)
    } else if same_text(h, "=") {
        Some(BinaryOp::Equal)
    } else if same_text(h, "sameTerm") {
        Some(BinaryOp::SameTerm)
    } else if same_text(h, ">") {
        Some(BinaryOp::Greater)
    } else if same_text(h, ">=") {
        Some(BinaryOp::GreaterOrEqual)
    } else if same_text(h, "<") {
        Some(BinaryOp::Less)
    } else if same_text(h, "<=") {
        Some(BinaryOp::LessOrEqual)
    } else if same_text(h, "+") {
        Some(BinaryOp::Plus)
    } else if same_text(h, "-") {
        Some(BinaryOp::Minus)
    } else if same_text(h, "*") {
        Some(BinaryOp::Times)
    } else if same_text(h, "/") {
        Some(BinaryOp::Divide)
    } else {
        None
    }
}

pub open spec fn unary_word(h: Seq<char>) -> Option<UnaryOp> {
    if h == "!"@ {
        Some(UnaryOp::Not)
    } else if h == "+"@ {
        Some(UnaryOp::Plus)
    } else if h == "-"@ {
        Some(UnaryOp::Minus)
    } else {
        None
    }
}

fn read_unary(h: &str) -> (r: Option<UnaryOp>)
    ensures
        r == unary_word(h@),
{
    if same_text(h, "!") {
        Some(UnaryOp::Not)
    } else if same_text(h, "+") {
        Some(UnaryOp::Plus)
    } else if same_text(h, "-") {
        Some(UnaryOp::Minus)
    } else {
        None
    }
}

pub open spec fn function_word(h: Seq<char>) -> Option<Function> {
    if h == "str"@ {
        Some(Function::Str)
    } else if h == "lang"@ {
        Some(Function::Lang)
    } else if h == "datatype"@ {
        Some(Function::Datatype)
    } else if h == "strlen"@ {
        Some(Function::StrLen)
    } else if h == "ucase"@ {
        Some(Function::UCase)
    } else if h == "lcase"@ {
        Some(Function::LCase)
    } else if h == "contains"@ {
        Some(Function::Contains)
    } else if h == "strstarts"@ {
        Some(Function::StrStarts)
    } else if h == "strends"@ {
        Some(Function::StrEnds)
    } else if h == "isiri"@ {
        Some(Function::IsIri)
    } else if h == "isblank"@ {
        Some(Function::IsBlank)
    } else if h == "isliteral"@ {
        Some(Function::IsLiteral)
    } else if h == "isnumeric"@ {
        Some(Function::IsNumeric)
    } else if h == "regex"@ {
        Some(Function::Regex)
    } else {
        None
    }
}

fn read_function(h: &str) -> (r: Option<Function>)
    ensures
        r == function_word(h@),
{
    if same_text(h, "str") {
        Some(Function::Str)
    } else if same_text(h, "lang") {
        Some(Function::Lang)
    } else if same_text(h, "datatype") {
        Some(Function::Datatype)
    } else if same_text(h, "strlen") {
        Some(Function::StrLen)
    } else if same_text(h, "ucase") {
        Some(Function::UCase)
    } else if same_text(h, "lcase") {
        Some(Function::LCase)
    } else if same_text(h, "contains") {
        Some(Function::Contains)
    } else if same_text(h, "strstarts") {
        Some(Function::StrStarts)
    } else if same_text(h, "strends") {
        Some(Function::StrEnds)
    } else if same_text(h, "isiri") {
        Some(Function::IsIri)
    } else if same_text(h, "isblank") {
        Some(Function::IsBlank)
    } else if same_text(h, "isliteral") {
        Some(Function::IsLiteral)
    } else if same_text(h, "isnumeric") {
        Some(Function::IsNumeric)
    } else if same_text(h, "regex") {
        Some(Function::Regex)
    } else {
        None
    }
}

/// A small letter as a capital.
pub open spec fn capital(c: char) -> char {
    if 'a' <= c <= 'z' {
        (c as int - 32) as char
    } else {
        c
    }
}

/// The name under which something that cannot be evaluated is reported: IRIs as
/// they are, words in capitals.
pub open spec fn reported(h: Seq<char>) -> Seq<char> {
    if h.len() > 0 && h[0] == '<' {
        h
    } else {
        h.map_values(|c: char| capital(c))
    }
}

fn report_name(h: &str) -> (r: String)
    ensures
        r@ == reported(h@),
{
    let cs: Vec<char> = chars_of(h);
    if cs.len() > 0 && cs[0] == '<' {
        return string_of(cs.as_slice());
    }
    let mut out: String = String::new();
    let mut i: usize = 0;
    while i < cs.len()
        invariant
            i <= cs@.len(),
            out@ == cs@.map_values(|c: char| capital(c)).take(i as int),
        decreases cs@.len() - i,
    {
        let c: char = cs[i];
        if 'a' <= c && c <= 'z' {
            let b: u8 = c as u8;
            out.push((b - 32) as char);
        } else {
            out.push(c);
        }
        i += 1;
        assert(out@ =~= cs@.map_values(|c: char| capital(c)).take(i as int));
    }
    assert(out@ =~= reported(h@));
    out
}

pub open spec fn expr_read(t: Tree) -> Option<ExprView>
    decreases t, 0nat,
{
    match t {
        Tree::Atom(_) => match node_read(t) {
            Some(NodeView::Known(v, k)) => Some(ExprView::Known(v, k)),
            Some(NodeView::Variable(n)) => Some(ExprView::Variable(n)),
            _ => None,
        },
        Tree::List(v) => if v.len() == 0 {
            None
        } else {
            let h = head(t);
            if v.len() == 3 && binary_word(h) is Some {
                match (expr_read(v[1]), expr_read(v[2])) {
                    (Some(a), Some(b)) => Some(
                        ExprView::Binary(binary_word(h)->0, Box::new(a), Box::new(b)),
                    ),
                    _ => None,
                }
            } else if v.len() == 2 && unary_word(h) is Some {
                match expr_read(v[1]) {
                    Some(a) => Some(ExprView::Unary(unary_word(h)->0, Box::new(a))),
                    None => None,
                }
            } else if h == "bound"@ {
                if v.len() == 2 {
                    match variable_read(v[1]) {
                        Some(n) => Some(ExprView::Bound(n)),
                        None => None,
                    }
                } else {
                    None
                }
            } else if h == "in"@ {
                if v.len() >= 2 {
                    match (expr_read(v[1]), exprs_read(v, 2)) {
                        (Some(e), Some(list)) => Some(ExprView::In(Box::new(e), list)),
                        _ => None,
                    }
                } else {
                    None
                }
            } else if h == "if"@ {
                if v.len() == 4 {
                    match (expr_read(v[1]), expr_read(v[2]), expr_read(v[3])) {
                        (Some(c), Some(a), Some(b)) => Some(
                            ExprView::If(Box::new(c), Box::new(a), Box::new(b)),
                        ),
                        _ => None,
                    }
                } else {
                    None
                }
            } else if function_word(h) is Some {
                match exprs_read(v, 1) {
                    Some(args) => Some(ExprView::Call(function_word(h)->0, args)),
                    None => None,
                }
            } else {
                Some(ExprView::Unsupported(reported(h)))
            }
        },
    }
}

/// The expressions of a list, from item `from` on.
pub open spec fn exprs_read(v: Seq<Tree>, from: int) -> Option<Seq<ExprView>>
    decreases v, v.len() - from,
{
    if from < 0 || from >= v.len() {
        Some(Seq::empty())
    } else {
        match (expr_read(v[from]), exprs_read(v, from + 1)) {
            (Some(e), Some(rest)) => Some(seq![e] + rest),
            _ => None,
        }
    }
}

fn read_expr(x: &Sexp) -> (r: Option<Expr>)
    ensures
        match r {
            Some(e) => expr_read(x.view()) == Some(e.view()),
            None => expr_read(x.view()) is None,
        },
    decreases x, 0nat,
{
    match list_of(x) {
        None => match read_node(x) {
            Some(Node::Known(v, k)) => Some(Expr::Known(v, k)),
            Some(Node::Variable(n)) => Some(Expr::Variable(n)),
            _ => None,
        },
        Some(v) => {
            let n: usize = v.len();
            if n == 0 {
                return None;
            }
            let h: &str = head_of(v);
            let ghost ts = trees(v@);
            assert(forall|i: int| 0 <= i < n ==> #[trigger] ts[i] == v@[i].view());
            if n == 3 {
                if let Some(op) = read_binary(h) {
                    return match (read_expr(&v[1]), read_expr(&v[2])) {
                        (Some(a), Some(b)) => Some(Expr::Binary(op, Box::new(a), Box::new(b))),
                        _ => None,
                    };
                }
            }
            if n == 2 {
                if let Some(op) = read_unary(h) {
                    return match read_expr(&v[1]) {
                        Some(a) => Some(Expr::Unary(op, Box::new(a))),
                        None => None,
                    };
                }
            }
            if same_text(h, "bound") {
                if n != 2 {
                    return None;
                }
                return match read_variable(&v[1]) {
                    Some(name) => Some(Expr::Bound(name)),
                    None => None,
                };
            }
            if same_text(h, "in") {
                if n < 2 {
                    return None;
                }
                return match (read_expr(&v[1]), read_exprs(v, 2)) {
                    (Some(e), Some(list)) => {
                        let out: Expr = Expr::In(Box::new(e), list);
                        proof {
                            assert(out.view()->In_1 =~= exprs_view(list@));
                        }
                        Some(out)
                    },
                    _ => None,
                };
            }
            if same_text(h, "if") {
                if n != 4 {
                    return None;
                }
                return match (read_expr(&v[1]), read_expr(&v[2]), read_expr(&v[3])) {
                    (Some(c), Some(a), Some(b)) => Some(
                        Expr::If(Box::new(c), Box::new(a), Box::new(b)),
                    ),
                    _ => None,
                };
            }
            match read_function(h) {
                Some(f) => match read_exprs(v, 1) {
                    Some(args) => {
                        let out: Expr = Expr::Call(f, args);
                        proof {
                            assert(out.view()->Call_1 =~= exprs_view(args@));
                        }
                        Some(out)
                    },
                    None => None,
                },
                None => Some(Expr::Unsupported(report_name(h))),
            }
        },
    }
}

/// Reads the expressions of a list, from item `from` on.
fn read_exprs(v: &Vec<Sexp>, from: usize) -> (r: Option<Vec<Expr>>)
    requires
        from <= v@.len(),
    ensures
        match r {
            Some(es) => exprs_read(trees(v@), from as int) == Some(exprs_view(es@)),
            None => exprs_read(trees(v@), from as int) is None,
        },
    decreases v, 0nat,
{
    let mut out: Vec<Expr> = Vec::new();
    let mut i: usize = from;
    let ghost ts = trees(v@);
    proof {
        assert(exprs_view(out@) =~= Seq::<ExprView>::empty());
        if let Some(rest) = exprs_read(ts, from as int) {
            assert(exprs_view(out@) + rest =~= rest);
        }
    }
    while i < v.len()
        invariant
            from <= i <= v@.len(),
            ts == trees(v@),
            exprs_read(ts, from as int) == (match exprs_read(ts, i as int) {
                Some(rest) => Some(exprs_view(out@) + rest),
                None => None,
            }),
        decreases v@.len() - i,
    {
        assert(ts[i as int] == v@[i as int].view());
        match read_expr(&v[i]) {
            Some(e) => {
                let ghost before = exprs_view(out@);
                out.push(e);
                proof {
                    assert(exprs_view(out@) =~= before.push(e.view()));
                    if let Some(rest) = exprs_read(ts, i + 1) {
                        assert(before + (seq![e.view()] + rest) =~= exprs_view(out@) + rest);
                    }
                }
            },
            None => {
                return None;
            },
        }
        i += 1;
    }
    assert(exprs_view(out@) + Seq::<ExprView>::empty() =~= exprs_view(out@));
    Some(out)
}

// --- Aggregates and sort criteria ------------------------------------------------------------

/// The text of a plain literal.
pub open spec fn literal_read(t: Tree) -> Option<Seq<char>> {
    match node_read(t) {
        Some(NodeView::Known(v, TermKind::Literal { .. })) => Some(v),
        _ => None,
    }
}

fn read_literal(x: &Sexp) -> (r: Option<String>)
    ensures
        match r {
            Some(n) => literal_read(x.view()) == Some(n@),
            None => literal_read(x.view()) is None,
        },
{
    match read_node(x) {
        Some(Node::Known(v, TermType::Literal { datatype: _, lang: _ })) => Some(v),
        _ => None,
    }
}

/// What a list of words computes over a group: a function, whether it counts
/// different values only, its argument.
pub open spec fn aggregate_read(v: Seq<Tree>, variable: Seq<char>) -> Option<AggregateView> {
    let h = head(Tree::List(v));
    let distinct = v.len() > 1 && v[1] == Tree::Atom("distinct"@);
    let at: int = if distinct {
        2
    } else {
        1
    };
    if v.len() == 0 {
        None
    } else if v.len() == at {
        if h == "count"@ {
            Some(AggregateView { function: AggregateFnView::Count, distinct, argument: None, variable })
        } else {
            None
        }
    } else {
        match expr_read(v[at]) {
            Some(e) => match aggregate_word(h, v, at + 1) {
                Some(function) => Some(
                    AggregateView { function, distinct, argument: Some(e), variable },
                ),
                None => None,
            },
            None => None,
        }
    }
}

/// The function of an aggregate; a concatenation may have a separator at `sep`.
pub open spec fn aggregate_word(h: Seq<char>, v: Seq<Tree>, sep: int) -> Option<AggregateFnView> {
    if h == "count"@ {
        Some(AggregateFnView::Count)
    } else if h == "sum"@ {
        Some(AggregateFnView::Sum)
    } else if h == "avg"@ {
        Some(AggregateFnView::Avg)
    } else if h == "min"@ {
        Some(AggregateFnView::Min)
    } else if h == "max"@ {
        Some(AggregateFnView::Max)
    } else if h == "sample"@ {
        Some(AggregateFnView::Sample)
    } else if h == "group_concat"@ {
        if sep < v.len() {
            match literal_read(v[sep]) {
                Some(s) => Some(AggregateFnView::Concat(s)),
                None => None,
            }
        } else {
            Some(AggregateFnView::Concat(" "@))
        }
    } else {
        Some(AggregateFnView::Unsupported(reported(h)))
    }
}

fn read_aggregate_fn(h: &str, v: &Vec<Sexp>, sep: usize) -> (r: Option<AggregateFn>)
    ensures
        match r {
            Some(f) => aggregate_word(h@, trees(v@), sep as int) == Some(f@),
            None => aggregate_word(h@, trees(v@), sep as int) is None,
        },
{
    if same_text(h, "count") {
        Some(AggregateFn::Count)
    } else if same_text(h, "sum") {
        Some(AggregateFn::Sum)
    } else if same_text(h, "avg") {
        Some(AggregateFn::Avg)
    } else if same_text(h, "min") {
        Some(AggregateFn::Min)
    } else if same_text(h, "max") {
        Some(AggregateFn::Max)
    } else if same_text(h, "sample") {
        Some(AggregateFn::Sample)
    } else if same_text(h, "group_concat") {
        if sep < v.len() {
            assert(trees(v@)[sep as int] == v@[sep as int].view());
            match read_literal(&v[sep]) {
                Some(s) => Some(AggregateFn::Concat(s)),
                None => None,
            }
        } else {
            let mut s: String = String::new();
            s.push_str(" ");
            assert(s@ =~= " "@);
            Some(AggregateFn::Concat(s))
        }
    } else {
        Some(AggregateFn::Unsupported(report_name(h)))
    }
}

fn read_aggregate(v: &Vec<Sexp>, variable: String) -> (r: Option<Aggregate>)
    ensures
        match r {
            Some(a) => aggregate_read(trees(v@), variable@) == Some(a@),
            None => aggregate_read(trees(v@), variable@) is None,
        },
{
    let n: usize = v.len();
    if n == 0 {
        return None;
    }
    let ghost ts = trees(v@);
    assert(forall|i: int| 0 <= i < n ==> #[trigger] ts[i] == v@[i].view());
    let h: &str = head_of(v);
    let distinct: bool = n > 1 && is_word(&v[1], "distinct");
    let at: usize = if distinct {
        2
    } else {
        1
    };
    if n == at {
        if same_text(h, "count") {
            return Some(
                Aggregate { function: AggregateFn::Count, distinct, argument: None, variable },
            );
        }
        return None;
    }
    match read_expr(&v[at]) {
        Some(e) => match read_aggregate_fn(h, v, at + 1) {
            Some(function) => Some(Aggregate { function, distinct, argument: Some(e), variable }),
            None => None,
        },
        None => None,
    }
}

/// An aggregate with the variable that gets its value.
pub open spec fn named_aggregate_read(t: Tree) -> Option<AggregateView> {
    let v = items(t);
    if v.len() == 2 && v[0] is List {
        match variable_read(v[1]) {
            Some(n) => aggregate_read(items(v[0]), n),
            None => None,
        }
    } else {
        None
    }
}

fn read_named_aggregate(x: &Sexp) -> (r: Option<Aggregate>)
    ensures
        match r {
            Some(a) => named_aggregate_read(x.view()) == Some(a@),
            None => named_aggregate_read(x.view()) is None,
        },
{
    match list_of(x) {
        Some(v) => {
            if v.len() != 2 {
                return None;
            }
            assert(trees(v@)[0] == v@[0].view() && trees(v@)[1] == v@[1].view());
            match (list_of(&v[0]), read_variable(&v[1])) {
                (Some(a), Some(n)) => read_aggregate(a, n),
                _ => None,
            }
        },
        None => None,
    }
}

pub open spec fn aggregates_read(ts: Seq<Tree>) -> Option<Seq<AggregateView>>
    decreases ts.len(),
{
    if ts.len() == 0 {
        Some(Seq::empty())
    } else {
        match (aggregates_read(ts.drop_last()), named_aggregate_read(ts.last())) {
            (Some(v), Some(n)) => Some(v.push(n)),
            _ => None,
        }
    }
}

proof fn lemma_aggregates_prefix(ts: Seq<Tree>, i: int)
    requires
        0 <= i <= ts.len(),
        aggregates_read(ts.take(i)) is None,
    ensures
        aggregates_read(ts) is None,
    decreases ts.len() - i,
{
    if i < ts.len() {
        assert(ts.take(i + 1).drop_last() =~= ts.take(i));
        lemma_aggregates_prefix(ts, i + 1);
    } else {
        assert(ts.take(i) =~= ts);
    }
}

fn read_aggregates(v: &Vec<Sexp>) -> (r: Option<Vec<Aggregate>>)
    ensures
        match r {
            Some(ns) => aggregates_read(trees(v@)) == Some(aggregates_view(ns@)),
            None => aggregates_read(trees(v@)) is None,
        },
{
    let mut out: Vec<Aggregate> = Vec::new();
    let mut i: usize = 0;
    let ghost ts = trees(v@);
    proof {
        assert(ts.take(0) =~= Seq::<Tree>::empty());
        assert(aggregates_view(out@) =~= Seq::<AggregateView>::empty());
    }
    while i < v.len()
        invariant
            i <= v@.len(),
            ts == trees(v@),
            aggregates_read(ts.take(i as int)) == Some(aggregates_view(out@)),
        decreases v@.len() - i,
    {
        proof {
            assert(ts.take(i + 1).drop_last() =~= ts.take(i as int));
            assert(ts.take(i + 1).last() == v@[i as int].view());
        }
        match read_named_aggregate(&v[i]) {
            Some(n) => {
                let ghost before = aggregates_view(out@);
                out.push(n);
                assert(aggregates_view(out@) =~= before.push(n@));
            },
            None => {
                proof {
                    lemma_aggregates_prefix(ts, i + 1);
                }
                return None;
            },
        }
        i += 1;
    }
    assert(ts.take(i as int) =~= ts);
    Some(out)
}

pub open spec fn order_read(t: Tree) -> Option<OrderByView> {
    if is_form(t, "asc"@, 1) || is_form(t, "desc"@, 1) {
        match expr_read(items(t)[1]) {
            Some(expr) => Some(OrderByView { expr, descending: head(t) == "desc"@ }),
            None => None,
        }
    } else {
        None
    }
}

fn read_order(x: &Sexp) -> (r: Option<OrderBy>)
    ensures
        match r {
            Some(o) => order_read(x.view()) == Some(o@),
            None => order_read(x.view()) is None,
        },
{
    match list_of(x) {
        Some(v) => {
            if v.len() != 2 {
                return None;
            }
            assert(trees(v@)[1] == v@[1].view());
            let h: &str = head_of(v);
            let descending: bool = same_text(h, "desc");
            if !descending && !same_text(h, "asc") {
                return None;
            }
            match read_expr(&v[1]) {
                Some(expr) => Some(OrderBy { expr, descending }),
                None => None,
            }
        },
        None => None,
    }
}

pub open spec fn orders_read(ts: Seq<Tree>) -> Option<Seq<OrderByView>>
    decreases ts.len(),
{
    if ts.len() == 0 {
        Some(Seq::empty())
    } else {
        match (orders_read(ts.drop_last()), order_read(ts.last())) {
            (Some(v), Some(n)) => Some(v.push(n)),
            _ => None,
        }
    }
}

proof fn lemma_orders_prefix(ts: Seq<Tree>, i: int)
    requires
        0 <= i <= ts.len(),
        orders_read(ts.take(i)) is None,
    ensures
        orders_read(ts) is None,
    decreases ts.len() - i,
{
    if i < ts.len() {
        assert(ts.take(i + 1).drop_last() =~= ts.take(i));
        lemma_orders_prefix(ts, i + 1);
    } else {
        assert(ts.take(i) =~= ts);
    }
}

fn read_orders(v: &Vec<Sexp>) -> (r: Option<Vec<OrderBy>>)
    ensures
        match r {
            Some(ns) => orders_read(trees(v@)) == Some(orders_view(ns@)),
            None => orders_read(trees(v@)) is None,
        },
{
    let mut out: Vec<OrderBy> = Vec::new();
    let mut i: usize = 0;
    let ghost ts = trees(v@);
    proof {
        assert(ts.take(0) =~= Seq::<Tree>::empty());
        assert(orders_view(out@) =~= Seq::<OrderByView>::empty());
    }
    while i < v.len()
        invariant
            i <= v@.len(),
            ts == trees(v@),
            orders_read(ts.take(i as int)) == Some(orders_view(out@)),
        decreases v@.len() - i,
    {
        proof {
            assert(ts.take(i + 1).drop_last() =~= ts.take(i as int));
            assert(ts.take(i + 1).last() == v@[i as int].view());
        }
        match read_order(&v[i]) {
            Some(n) => {
                let ghost before = orders_view(out@);
                out.push(n);
                assert(orders_view(out@) =~= before.push(n@));
            },
            None => {
                proof {
                    lemma_orders_prefix(ts, i + 1);
                }
                return None;
            },
        }
        i += 1;
    }
    assert(ts.take(i as int) =~= ts);
    Some(out)
}

// --- Patterns ---------------------------------------------------------------------------------

/// The bound of a slice: a number, or an underscore for none.
pub open spec fn bound_read(t: Tree) -> Option<Option<usize>> {
    match t {
        Tree::Atom(a) => if a == "_"@ {
            Some(None)
        } else {
            match parsed_usize(a) {
                Some(n) => Some(Some(n)),
                None => None,
            }
        },
        Tree::List(_) => None,
    }
}

fn read_bound(x: &Sexp) -> (r: Option<Option<usize>>)
    ensures
        r == bound_read(x.view()),
{
    match x {
        Sexp::Atom(a) => {
            if same_text(a.as_str(), "_") {
                return Some(None);
            }
            match parse_usize(a.as_str()) {
                Some(n) => Some(Some(n)),
                None => None,
            }
        },
        Sexp::List(_) => {
            proof {
                lemma_list_view(*x);
            }
            None
        },
    }
}

pub open spec fn pattern_read(t: Tree) -> Option<PatternView>
    decreases t,
{
    match t {
        Tree::Atom(_) => None,
        Tree::List(v) => {
            let h = head(t);
            if v.len() == 0 {
                None
            } else if h == "bgp"@ {
                match quads_read(v.skip(1)) {
                    Some(ts) => Some(PatternView::Bgp(ts)),
                    None => None,
                }
            } else if h == "table"@ {
                Some(PatternView::Values)
            } else if v.len() == 2 {
                match pattern_read(v[1]) {
                    Some(p) => if h == "distinct"@ {
                        Some(PatternView::Distinct(Box::new(p)))
                    } else if h == "reduced"@ {
                        Some(PatternView::Reduced(Box::new(p)))
                    } else {
                        None
                    },
                    None => None,
                }
            } else if v.len() == 3 {
                if h == "filter"@ {
                    match (expr_read(v[1]), pattern_read(v[2])) {
                        (Some(e), Some(p)) => Some(PatternView::Filter(e, Box::new(p))),
                        _ => None,
                    }
                } else if h == "project"@ {
                    match (v[1], pattern_read(v[2])) {
                        (Tree::List(ns), Some(p)) => match variables_read(ns) {
                            Some(vars) => Some(PatternView::Project(vars, Box::new(p))),
                            None => None,
                        },
                        _ => None,
                    }
                } else if h == "order"@ {
                    match (v[1], pattern_read(v[2])) {
                        (Tree::List(os), Some(p)) => match orders_read(os) {
                            Some(orders) => Some(PatternView::Order(orders, Box::new(p))),
                            None => None,
                        },
                        _ => None,
                    }
                } else if h == "extend"@ {
                    match (binding_read(v[1]), pattern_read(v[2])) {
                        (Some((n, e)), Some(p)) => Some(PatternView::Extend(Box::new(p), n, e)),
                        _ => None,
                    }
                } else if h == "graph"@ || h == "service"@ {
                    match pattern_read(v[2]) {
                        Some(p) => if h == "graph"@ {
                            Some(PatternView::Graph(Box::new(p)))
                        } else {
                            Some(PatternView::Service(Box::new(p)))
                        },
                        None => None,
                    }
                } else {
                    match (pattern_read(v[1]), pattern_read(v[2])) {
                        (Some(a), Some(b)) => if h == "join"@ {
                            Some(PatternView::Join(Box::new(a), Box::new(b)))
                        } else if h == "leftjoin"@ {
                            Some(PatternView::LeftJoin(Box::new(a), Box::new(b), None))
                        } else if h == "union"@ {
                            Some(PatternView::Union(Box::new(a), Box::new(b)))
                        } else if h == "minus"@ {
                            Some(PatternView::Minus(Box::new(a), Box::new(b)))
                        } else {
                            None
                        },
                        _ => None,
                    }
                }
            } else if v.len() == 4 {
                if h == "path"@ {
                    match (node_read(v[1]), path_read(v[2]), node_read(v[3])) {
                        (Some(s), Some(p), Some(o)) => Some(PatternView::Path(s, p, o)),
                        _ => None,
                    }
                } else if h == "leftjoin"@ {
                    match (pattern_read(v[1]), pattern_read(v[2]), expr_read(v[3])) {
                        (Some(a), Some(b), Some(e)) => Some(
                            PatternView::LeftJoin(Box::new(a), Box::new(b), Some(e)),
                        ),
                        _ => None,
                    }
                } else if h == "slice"@ {
                    match (bound_read(v[1]), bound_read(v[2]), pattern_read(v[3])) {
                        (Some(Some(start)), Some(length), Some(p)) => Some(
                            PatternView::Slice(start, length, Box::new(p)),
                        ),
                        _ => None,
                    }
                } else if h == "group"@ {
                    match (v[1], v[2], pattern_read(v[3])) {
                        (Tree::List(ns), Tree::List(aggs), Some(p)) => match (
                            variables_read(ns),
                            aggregates_read(aggs),
                        ) {
                            (Some(vars), Some(list)) => Some(
                                PatternView::Group(vars, list, Box::new(p)),
                            ),
                            _ => None,
                        },
                        _ => None,
                    }
                } else if h == "service"@ {
                    match pattern_read(v[3]) {
                        Some(p) => Some(PatternView::Service(Box::new(p))),
                        None => None,
                    }
                } else {
                    None
                }
            } else {
                None
            }
        },
    }
}

/// A variable and the expression it is bound to, in two brackets.
pub open spec fn binding_read(t: Tree) -> Option<(Seq<char>, ExprView)> {
    let outer = items(t);
    if outer.len() == 1 && items(outer[0]).len() == 2 {
        match (variable_read(items(outer[0])[0]), expr_read(items(outer[0])[1])) {
            (Some(n), Some(e)) => Some((n, e)),
            _ => None,
        }
    } else {
        None
    }
}

fn read_binding(x: &Sexp) -> (r: Option<(String, Expr)>)
    ensures
        match r {
            Some((n, e)) => binding_read(x.view()) == Some((n@, e.view())),
            None => binding_read(x.view()) is None,
        },
{
    match list_of(x) {
        Some(outer) => {
            if outer.len() != 1 {
                return None;
            }
            assert(trees(outer@)[0] == outer@[0].view());
            match list_of(&outer[0]) {
                Some(v) => {
                    if v.len() != 2 {
                        return None;
                    }
                    assert(trees(v@)[0] == v@[0].view() && trees(v@)[1] == v@[1].view());
                    match (read_variable(&v[0]), read_expr(&v[1])) {
                        (Some(n), Some(e)) => Some((n, e)),
                        _ => None,
                    }
                },
                None => None,
            }
        },
        None => None,
    }
}

/// Reads a graph pattern.
pub fn read_pattern(x: &Sexp) -> (r: Option<Pattern>)
    ensures
        match r {
            Some(p) => pattern_read(x.view()) == Some(p.view()),
            None => pattern_read(x.view()) is None,
        },
    decreases x,
{
    let v: &Vec<Sexp> = match list_of(x) {
        Some(v) => v,
        None => {
            return None;
        },
    };
    let n: usize = v.len();
    let ghost ts = trees(v@);
    assert(forall|i: int| 0 <= i < n ==> #[trigger] ts[i] == v@[i].view());
    if n == 0 {
        return None;
    }
    let h: &str = head_of(v);
    if same_text(h, "bgp") {
        return match read_quads(v, 1) {
            Some(list) => Some(Pattern::Bgp(list)),
            None => None,
        };
    }
    if same_text(h, "table") {
        return Some(Pattern::Values);
    }
    if n == 2 {
        return match read_pattern(&v[1]) {
            Some(p) => {
                if same_text(h, "distinct") {
                    Some(Pattern::Distinct(Box::new(p)))
                } else if same_text(h, "reduced") {
                    Some(Pattern::Reduced(Box::new(p)))
                } else {
                    None
                }
            },
            None => None,
        };
    }
    if n == 3 {
        return read_three(x, v, h);
    }
    if n == 4 {
        return read_four(x, v, h);
    }
    None
}

/// Patterns of two parts.
fn read_three(x: &Sexp, v: &Vec<Sexp>, h: &str) -> (r: Option<Pattern>)
    requires
        *x == Sexp::List(*v),
        v@.len() == 3,
        h@ == head(x.view()),
        h@ != "bgp"@,
        h@ != "table"@,
    ensures
        match r {
            Some(p) => pattern_read(x.view()) == Some(p.view()),
            None => pattern_read(x.view()) is None,
        },
    decreases v,
{
    let ghost ts = trees(v@);
    proof {
        lemma_list_view(*x);
        assert(forall|i: int| 0 <= i < 3 ==> #[trigger] ts[i] == v@[i].view());
    }
    let p: Pattern = match read_pattern(&v[2]) {
        Some(p) => p,
        None => {
            return None;
        },
    };
    if same_text(h, "filter") {
        match read_expr(&v[1]) {
            Some(e) => Some(Pattern::Filter(e, Box::new(p))),
            None => None,
        }
    } else if same_text(h, "project") {
        match list_of(&v[1]) {
            Some(ns) => match read_variables(ns) {
                Some(vars) => Some(Pattern::Project(vars, Box::new(p))),
                None => None,
            },
            None => None,
        }
    } else if same_text(h, "order") {
        match list_of(&v[1]) {
            Some(os) => match read_orders(os) {
                Some(orders) => Some(Pattern::Order(orders, Box::new(p))),
                None => None,
            },
            None => None,
        }
    } else if same_text(h, "extend") {
        match read_binding(&v[1]) {
            Some((n, e)) => Some(Pattern::Extend(Box::new(p), n, e)),
            None => None,
        }
    } else if same_text(h, "graph") {
        Some(Pattern::Graph(Box::new(p)))
    } else if same_text(h, "service") {
        Some(Pattern::Service(Box::new(p)))
    } else {
        match read_pattern(&v[1]) {
            Some(a) => {
                if same_text(h, "join") {
                    Some(Pattern::Join(Box::new(a), Box::new(p)))
                } else if same_text(h, "leftjoin") {
                    Some(Pattern::LeftJoin(Box::new(a), Box::new(p), None))
                } else if same_text(h, "union") {
                    Some(Pattern::Union(Box::new(a), Box::new(p)))
                } else if same_text(h, "minus") {
                    Some(Pattern::Minus(Box::new(a), Box::new(p)))
                } else {
                    None
                }
            },
            None => None,
        }
    }
}

/// Patterns of three parts.
fn read_four(x: &Sexp, v: &Vec<Sexp>, h: &str) -> (r: Option<Pattern>)
    requires
        *x == Sexp::List(*v),
        v@.len() == 4,
        h@ == head(x.view()),
        h@ != "bgp"@,
        h@ != "table"@,
    ensures
        match r {
            Some(p) => pattern_read(x.view()) == Some(p.view()),
            None => pattern_read(x.view()) is None,
        },
    decreases v,
{
    let ghost ts = trees(v@);
    proof {
        lemma_list_view(*x);
        assert(forall|i: int| 0 <= i < 4 ==> #[trigger] ts[i] == v@[i].view());
    }
    if same_text(h, "path") {
        match (read_node(&v[1]), read_path(&v[2]), read_node(&v[3])) {
            (Some(s), Some(p), Some(o)) => Some(Pattern::Path(s, p, o)),
            _ => None,
        }
    } else if same_text(h, "leftjoin") {
        match (read_pattern(&v[1]), read_pattern(&v[2]), read_expr(&v[3])) {
            (Some(a), Some(b), Some(e)) => Some(Pattern::LeftJoin(Box::new(a), Box::new(b), Some(e))),
            _ => None,
        }
    } else if same_text(h, "slice") {
        match (read_bound(&v[1]), read_bound(&v[2]), read_pattern(&v[3])) {
            (Some(Some(start)), Some(length), Some(p)) => Some(
                Pattern::Slice(start, length, Box::new(p)),
            ),
            _ => None,
        }
    } else if same_text(h, "group") {
        match (list_of(&v[1]), list_of(&v[2]), read_pattern(&v[3])) {
            (Some(ns), Some(aggs), Some(p)) => match (read_variables(ns), read_aggregates(aggs)) {
                (Some(vars), Some(list)) => Some(Pattern::Group(vars, list, Box::new(p))),
                _ => None,
            },
            _ => None,
        }
    } else if same_text(h, "service") {
        match read_pattern(&v[3]) {
            Some(p) => Some(Pattern::Service(Box::new(p))),
            None => None,
        }
    } else {
        None
    }
}

// --- Queries and updates --------------------------------------------------------------------------

/// A pattern, with or without the graphs it is asked of.
pub open spec fn dataset_read(t: Tree) -> Option<PatternView> {
    if is_form(t, "dataset"@, 2) {
        pattern_read(items(t)[2])
    } else {
        pattern_read(t)
    }
}

fn read_dataset(x: &Sexp) -> (r: Option<Pattern>)
    ensures
        match r {
            Some(p) => dataset_read(x.view()) == Some(p.view()),
            None => dataset_read(x.view()) is None,
        },
{
    if let Some(v) = list_of(x) {
        if v.len() == 3 && same_text(head_of(v), "dataset") {
            assert(trees(v@)[2] == v@[2].view());
            return read_pattern(&v[2]);
        }
    }
    read_pattern(x)
}

/// What a tree with an optional base IRI around it stands for.
pub open spec fn unbased(t: Tree) -> Tree {
    if is_form(t, "base"@, 2) {
        items(t)[2]
    } else {
        t
    }
}

fn skip_base(x: &Sexp) -> (r: &Sexp)
    ensures
        r.view() == unbased(x.view()),
{
    if let Some(v) = list_of(x) {
        if v.len() == 3 && same_text(head_of(v), "base") {
            assert(trees(v@)[2] == v@[2].view());
            return &v[2];
        }
    }
    x
}

pub open spec fn query_read(t0: Tree) -> Option<QueryView> {
    let t = unbased(t0);
    if t is List && (head(t) == "construct"@ || head(t) == "describe"@) {
        Some(QueryView::Other)
    } else if is_form(t, "ask"@, 1) {
        match dataset_read(items(t)[1]) {
            Some(p) => Some(QueryView::Ask(p)),
            None => None,
        }
    } else {
        match dataset_read(t) {
            Some(p) => Some(QueryView::Select(p)),
            None => None,
        }
    }
}

/// The query that a text stands for.
pub open spec fn text_query(s: Seq<char>) -> Option<QueryView> {
    match tree_of(s) {
        Some(t) => query_read(t),
        None => None,
    }
}

/// Reads a query from its text form.
pub fn read_query(text: &str) -> (r: Option<Query>)
    ensures
        match r {
            Some(q) => text_query(text@) == Some(q@),
            None => text_query(text@) is None,
        },
{
    let tree: Sexp = match read_sexp(text) {
        Some(t) => t,
        None => {
            return None;
        },
    };
    let x: &Sexp = skip_base(&tree);
    if let Some(v) = list_of(x) {
        let h: &str = head_of(v);
        if same_text(h, "construct") || same_text(h, "describe") {
            return Some(Query::Other);
        }
        if v.len() == 2 && same_text(h, "ask") {
            assert(trees(v@)[1] == v@[1].view());
            return match read_dataset(&v[1]) {
                Some(p) => Some(Query::Ask(p)),
                None => None,
            };
        }
    }
    match read_dataset(x) {
        Some(p) => Some(Query::Select(p)),
        None => None,
    }
}

pub open spec fn op_read(t: Tree) -> Option<UpdateOpView> {
    if is_form(t, "insertData"@, 1) || is_form(t, "deleteData"@, 1) {
        match items(t)[1] {
            Tree::List(qs) => match quads_read(qs) {
                Some(ts) => if head(t) == "insertData"@ {
                    Some(UpdateOpView::Insert(ts))
                } else {
                    Some(UpdateOpView::Delete(ts))
                },
                None => None,
            },
            Tree::Atom(_) => None,
        }
    } else {
        Some(UpdateOpView::Other)
    }
}

fn read_op(x: &Sexp) -> (r: Option<UpdateOp>)
    ensures
        match r {
            Some(o) => op_read(x.view()) == Some(o@),
            None => op_read(x.view()) is None,
        },
{
    if let Some(v) = list_of(x) {
        if v.len() == 2 {
            let h: &str = head_of(v);
            let insert: bool = same_text(h, "insertData");
            if insert || same_text(h, "deleteData") {
                assert(trees(v@)[1] == v@[1].view());
                return match list_of(&v[1]) {
                    Some(qs) => {
                        assert(trees(qs@).skip(0) =~= trees(qs@));
                        match read_quads(qs, 0) {
                            Some(ts) => {
                                if insert {
                                    Some(UpdateOp::Insert(ts))
                                } else {
                                    Some(UpdateOp::Delete(ts))
                                }
                            },
                            None => None,
                        }
                    },
                    None => None,
                };
            }
        }
    }
    Some(UpdateOp::Other)
}

pub open spec fn ops_read(ts: Seq<Tree>) -> Option<Seq<UpdateOpView>>
    decreases ts.len(),
{
    if ts.len() == 0 {
        Some(Seq::empty())
    } else {
        match (ops_read(ts.drop_last()), op_read(ts.last())) {
            (Some(v), Some(n)) => Some(v.push(n)),
            _ => None,
        }
    }
}

proof fn lemma_ops_prefix(ts: Seq<Tree>, i: int)
    requires
        0 <= i <= ts.len(),
        ops_read(ts.take(i)) is None,
    ensures
        ops_read(ts) is None,
    decreases ts.len() - i,
{
    if i < ts.len() {
        assert(ts.take(i + 1).drop_last() =~= ts.take(i));
        lemma_ops_prefix(ts, i + 1);
    } else {
        assert(ts.take(i) =~= ts);
    }
}

/// The operations that a text stands for.
pub open spec fn text_update(s: Seq<char>) -> Option<Seq<UpdateOpView>> {
    match tree_of(s) {
        Some(t0) => {
            let t = unbased(t0);
            if t is List && items(t).len() > 0 && head(t) == "update"@ {
                ops_read(items(t).skip(1))
            } else {
                None
            }
        },
        None => None,
    }
}

/// Reads an update from its text form.
pub fn read_update(text: &str) -> (r: Option<Vec<UpdateOp>>)
    ensures
        match r {
            Some(ops) => text_update(text@) == Some(ops_view(ops@)),
            None => text_update(text@) is None,
        },
{
    let tree: Sexp = match read_sexp(text) {
        Some(t) => t,
        None => {
            return None;
        },
    };
    let x: &Sexp = skip_base(&tree);
    let v: &Vec<Sexp> = match list_of(x) {
        Some(v) => v,
        None => {
            return None;
        },
    };
    if v.len() == 0 || !same_text(head_of(v), "update") {
        return None;
    }
    let mut out: Vec<UpdateOp> = Vec::new();
    let mut i: usize = 1;
    let ghost ts = trees(v@).skip(1);
    proof {
        assert(ts.take(0) =~= Seq::<Tree>::empty());
        assert(ops_view(out@) =~= Seq::<UpdateOpView>::empty());
    }
    while i < v.len()
        invariant
            1 <= i <= v@.len(),
            ts == trees(v@).skip(1),
            ops_read(ts.take(i - 1)) == Some(ops_view(out@)),
            text_update(text@) == ops_read(ts),
        decreases v@.len() - i,
    {
        proof {
            assert(ts.take(i as int).drop_last() =~= ts.take(i - 1));
            assert(ts.take(i as int).last() == v@[i as int].view());
        }
        match read_op(&v[i]) {
            Some(o) => {
                let ghost before = ops_view(out@);
                out.push(o);
                assert(ops_view(out@) =~= before.push(o@));
            },
            None => {
                proof {
                    lemma_ops_prefix(ts, i as int);
                }
                return None;
            },
        }
        i += 1;
    }
    assert(ts.take(i - 1) =~= ts);
    Some(out)
}

} // verus!
