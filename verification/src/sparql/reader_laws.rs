//! What is read is what was written: queries and updates in their text form.
//!
//! The writer here says how the algebra is written down. Reading a written path,
//! expression, pattern, query or update gives it back.

use crate::hypertrie::dictionary::TermKind;
use crate::hypertrie::export::{
    escaped, lemma_iri_round_trip, lemma_quoted_round_trip, run_length, term_rest, term_text,
    writable, TermText,
};
use crate::hypertrie::csr::IdTriple;
use crate::sparql::algebra::{
    AggregateFnView, AggregateView, BinaryOp, ExprView, Function, NodeView, OrderByView, PathView,
    PatternView, QueryView, TripleView, UnaryOp, UpdateOpView,
};
use crate::sparql::path_laws::law_sequence;
use crate::sparql::paths::linked;
use crate::sparql::reader::{
    aggregate_read, aggregates_read, binary_word, binding_read, bound_read, expr_read, exprs_read,
    function_word, head, iri_read, iris_read, items, named_aggregate_read, node_read, op_read,
    ops_read, order_read, orders_read, path_read, pattern_read, quad_read, quads_read, query_read,
    triple_read, unary_word, variable_read, variables_read,
};
use crate::sparql::sse::Tree;
use crate::text::{decimal, law_decimal_reads_back};
use vstd::prelude::*;

verus! {

// --- Words -----------------------------------------------------------------------------

/// The words of paths.
proof fn lemma_path_words()
    ensures
        "notoneof"@.len() == 8,
        "notoneof"@[0] == 'n',
        "notoneof"@[1] == 'o',
        "notoneof"@[2] == 't',
        "notoneof"@[3] == 'o',
        "notoneof"@[4] == 'n',
        "notoneof"@[5] == 'e',
        "notoneof"@[6] == 'o',
        "notoneof"@[7] == 'f',
        "reverse"@.len() == 7,
        "reverse"@[0] == 'r',
        "reverse"@[1] == 'e',
        "reverse"@[2] == 'v',
        "reverse"@[3] == 'e',
        "reverse"@[4] == 'r',
        "reverse"@[5] == 's',
        "reverse"@[6] == 'e',
        "path*"@.len() == 5,
        "path*"@[0] == 'p',
        "path*"@[1] == 'a',
        "path*"@[2] == 't',
        "path*"@[3] == 'h',
        "path*"@[4] == '*',
        "path+"@.len() == 5,
        "path+"@[0] == 'p',
        "path+"@[1] == 'a',
        "path+"@[2] == 't',
        "path+"@[3] == 'h',
        "path+"@[4] == '+',
        "path?"@.len() == 5,
        "path?"@[0] == 'p',
        "path?"@[1] == 'a',
        "path?"@[2] == 't',
        "path?"@[3] == 'h',
        "path?"@[4] == '?',
        "seq"@.len() == 3,
        "seq"@[0] == 's',
        "seq"@[1] == 'e',
        "seq"@[2] == 'q',
        "alt"@.len() == 3,
        "alt"@[0] == 'a',
        "alt"@[1] == 'l',
        "alt"@[2] == 't',
{
    reveal_strlit("notoneof");
    reveal_strlit("reverse");
    reveal_strlit("path*");
    reveal_strlit("path+");
    reveal_strlit("path?");
    reveal_strlit("seq");
    reveal_strlit("alt");
}

/// The words of operations.
proof fn lemma_operator_words()
    ensures
        "||"@.len() == 2,
        "||"@[0] == '|',
        "||"@[1] == '|',
        "&&"@.len() == 2,
        "&&"@[0] == '&',
        "&&"@[1] == '&',
        "="@.len() == 1,
        "="@[0] == '=',
        "sameTerm"@.len() == 8,
        "sameTerm"@[0] == 's',
        "sameTerm"@[1] == 'a',
        "sameTerm"@[2] == 'm',
        "sameTerm"@[3] == 'e',
        "sameTerm"@[4] == 'T',
        "sameTerm"@[5] == 'e',
        "sameTerm"@[6] == 'r',
        "sameTerm"@[7] == 'm',
        ">"@.len() == 1,
        ">"@[0] == '>',
        ">="@.len() == 2,
        ">="@[0] == '>',
        ">="@[1] == '=',
        "<"@.len() == 1,
        "<"@[0] == '<',
        "<="@.len() == 2,
        "<="@[0] == '<',
        "<="@[1] == '=',
        "+"@.len() == 1,
        "+"@[0] == '+',
        "-"@.len() == 1,
        "-"@[0] == '-',
        "*"@.len() == 1,
        "*"@[0] == '*',
        "/"@.len() == 1,
        "/"@[0] == '/',
        "!"@.len() == 1,
        "!"@[0] == '!',
{
    reveal_strlit("||");
    reveal_strlit("&&");
    reveal_strlit("=");
    reveal_strlit("sameTerm");
    reveal_strlit(">");
    reveal_strlit(">=");
    reveal_strlit("<");
    reveal_strlit("<=");
    reveal_strlit("+");
    reveal_strlit("-");
    reveal_strlit("*");
    reveal_strlit("/");
    reveal_strlit("!");
}

/// The words of functions.
proof fn lemma_function_words()
    ensures
        "bound"@.len() == 5,
        "bound"@[0] == 'b',
        "bound"@[1] == 'o',
        "bound"@[2] == 'u',
        "bound"@[3] == 'n',
        "bound"@[4] == 'd',
        "in"@.len() == 2,
        "in"@[0] == 'i',
        "in"@[1] == 'n',
        "if"@.len() == 2,
        "if"@[0] == 'i',
        "if"@[1] == 'f',
        "str"@.len() == 3,
        "str"@[0] == 's',
        "str"@[1] == 't',
        "str"@[2] == 'r',
        "lang"@.len() == 4,
        "lang"@[0] == 'l',
        "lang"@[1] == 'a',
        "lang"@[2] == 'n',
        "lang"@[3] == 'g',
        "datatype"@.len() == 8,
        "datatype"@[0] == 'd',
        "datatype"@[1] == 'a',
        "datatype"@[2] == 't',
        "datatype"@[3] == 'a',
        "datatype"@[4] == 't',
        "datatype"@[5] == 'y',
        "datatype"@[6] == 'p',
        "datatype"@[7] == 'e',
        "strlen"@.len() == 6,
        "strlen"@[0] == 's',
        "strlen"@[1] == 't',
        "strlen"@[2] == 'r',
        "strlen"@[3] == 'l',
        "strlen"@[4] == 'e',
        "strlen"@[5] == 'n',
        "ucase"@.len() == 5,
        "ucase"@[0] == 'u',
        "ucase"@[1] == 'c',
        "ucase"@[2] == 'a',
        "ucase"@[3] == 's',
        "ucase"@[4] == 'e',
        "lcase"@.len() == 5,
        "lcase"@[0] == 'l',
        "lcase"@[1] == 'c',
        "lcase"@[2] == 'a',
        "lcase"@[3] == 's',
        "lcase"@[4] == 'e',
        "contains"@.len() == 8,
        "contains"@[0] == 'c',
        "contains"@[1] == 'o',
        "contains"@[2] == 'n',
        "contains"@[3] == 't',
        "contains"@[4] == 'a',
        "contains"@[5] == 'i',
        "contains"@[6] == 'n',
        "contains"@[7] == 's',
        "strstarts"@.len() == 9,
        "strstarts"@[0] == 's',
        "strstarts"@[1] == 't',
        "strstarts"@[2] == 'r',
        "strstarts"@[3] == 's',
        "strstarts"@[4] == 't',
        "strstarts"@[5] == 'a',
        "strstarts"@[6] == 'r',
        "strstarts"@[7] == 't',
        "strstarts"@[8] == 's',
        "strends"@.len() == 7,
        "strends"@[0] == 's',
        "strends"@[1] == 't',
        "strends"@[2] == 'r',
        "strends"@[3] == 'e',
        "strends"@[4] == 'n',
        "strends"@[5] == 'd',
        "strends"@[6] == 's',
        "isiri"@.len() == 5,
        "isiri"@[0] == 'i',
        "isiri"@[1] == 's',
        "isiri"@[2] == 'i',
        "isiri"@[3] == 'r',
        "isiri"@[4] == 'i',
        "isblank"@.len() == 7,
        "isblank"@[0] == 'i',
        "isblank"@[1] == 's',
        "isblank"@[2] == 'b',
        "isblank"@[3] == 'l',
        "isblank"@[4] == 'a',
        "isblank"@[5] == 'n',
        "isblank"@[6] == 'k',
        "isliteral"@.len() == 9,
        "isliteral"@[0] == 'i',
        "isliteral"@[1] == 's',
        "isliteral"@[2] == 'l',
        "isliteral"@[3] == 'i',
        "isliteral"@[4] == 't',
        "isliteral"@[5] == 'e',
        "isliteral"@[6] == 'r',
        "isliteral"@[7] == 'a',
        "isliteral"@[8] == 'l',
        "isnumeric"@.len() == 9,
        "isnumeric"@[0] == 'i',
        "isnumeric"@[1] == 's',
        "isnumeric"@[2] == 'n',
        "isnumeric"@[3] == 'u',
        "isnumeric"@[4] == 'm',
        "isnumeric"@[5] == 'e',
        "isnumeric"@[6] == 'r',
        "isnumeric"@[7] == 'i',
        "isnumeric"@[8] == 'c',
        "regex"@.len() == 5,
        "regex"@[0] == 'r',
        "regex"@[1] == 'e',
        "regex"@[2] == 'g',
        "regex"@[3] == 'e',
        "regex"@[4] == 'x',
{
    reveal_strlit("bound");
    reveal_strlit("in");
    reveal_strlit("if");
    reveal_strlit("str");
    reveal_strlit("lang");
    reveal_strlit("datatype");
    reveal_strlit("strlen");
    reveal_strlit("ucase");
    reveal_strlit("lcase");
    reveal_strlit("contains");
    reveal_strlit("strstarts");
    reveal_strlit("strends");
    reveal_strlit("isiri");
    reveal_strlit("isblank");
    reveal_strlit("isliteral");
    reveal_strlit("isnumeric");
    reveal_strlit("regex");
}

/// The words of aggregates.
proof fn lemma_aggregate_words()
    ensures
        "count"@.len() == 5,
        "count"@[0] == 'c',
        "count"@[1] == 'o',
        "count"@[2] == 'u',
        "count"@[3] == 'n',
        "count"@[4] == 't',
        "sum"@.len() == 3,
        "sum"@[0] == 's',
        "sum"@[1] == 'u',
        "sum"@[2] == 'm',
        "avg"@.len() == 3,
        "avg"@[0] == 'a',
        "avg"@[1] == 'v',
        "avg"@[2] == 'g',
        "min"@.len() == 3,
        "min"@[0] == 'm',
        "min"@[1] == 'i',
        "min"@[2] == 'n',
        "max"@.len() == 3,
        "max"@[0] == 'm',
        "max"@[1] == 'a',
        "max"@[2] == 'x',
        "sample"@.len() == 6,
        "sample"@[0] == 's',
        "sample"@[1] == 'a',
        "sample"@[2] == 'm',
        "sample"@[3] == 'p',
        "sample"@[4] == 'l',
        "sample"@[5] == 'e',
        "group_concat"@.len() == 12,
        "group_concat"@[0] == 'g',
        "group_concat"@[1] == 'r',
        "group_concat"@[2] == 'o',
        "group_concat"@[3] == 'u',
        "group_concat"@[4] == 'p',
        "group_concat"@[5] == '_',
        "group_concat"@[6] == 'c',
        "group_concat"@[7] == 'o',
        "group_concat"@[8] == 'n',
        "group_concat"@[9] == 'c',
        "group_concat"@[10] == 'a',
        "group_concat"@[11] == 't',
        "distinct"@.len() == 8,
        "distinct"@[0] == 'd',
        "distinct"@[1] == 'i',
        "distinct"@[2] == 's',
        "distinct"@[3] == 't',
        "distinct"@[4] == 'i',
        "distinct"@[5] == 'n',
        "distinct"@[6] == 'c',
        "distinct"@[7] == 't',
        "asc"@.len() == 3,
        "asc"@[0] == 'a',
        "asc"@[1] == 's',
        "asc"@[2] == 'c',
        "desc"@.len() == 4,
        "desc"@[0] == 'd',
        "desc"@[1] == 'e',
        "desc"@[2] == 's',
        "desc"@[3] == 'c',
{
    reveal_strlit("count");
    reveal_strlit("sum");
    reveal_strlit("avg");
    reveal_strlit("min");
    reveal_strlit("max");
    reveal_strlit("sample");
    reveal_strlit("group_concat");
    reveal_strlit("distinct");
    reveal_strlit("asc");
    reveal_strlit("desc");
}

/// The words of patterns, queries and updates.
proof fn lemma_pattern_words()
    ensures
        "bgp"@.len() == 3,
        "bgp"@[0] == 'b',
        "bgp"@[1] == 'g',
        "bgp"@[2] == 'p',
        "table"@.len() == 5,
        "table"@[0] == 't',
        "table"@[1] == 'a',
        "table"@[2] == 'b',
        "table"@[3] == 'l',
        "table"@[4] == 'e',
        "distinct"@.len() == 8,
        "distinct"@[0] == 'd',
        "distinct"@[1] == 'i',
        "distinct"@[2] == 's',
        "distinct"@[3] == 't',
        "distinct"@[4] == 'i',
        "distinct"@[5] == 'n',
        "distinct"@[6] == 'c',
        "distinct"@[7] == 't',
        "reduced"@.len() == 7,
        "reduced"@[0] == 'r',
        "reduced"@[1] == 'e',
        "reduced"@[2] == 'd',
        "reduced"@[3] == 'u',
        "reduced"@[4] == 'c',
        "reduced"@[5] == 'e',
        "reduced"@[6] == 'd',
        "filter"@.len() == 6,
        "filter"@[0] == 'f',
        "filter"@[1] == 'i',
        "filter"@[2] == 'l',
        "filter"@[3] == 't',
        "filter"@[4] == 'e',
        "filter"@[5] == 'r',
        "project"@.len() == 7,
        "project"@[0] == 'p',
        "project"@[1] == 'r',
        "project"@[2] == 'o',
        "project"@[3] == 'j',
        "project"@[4] == 'e',
        "project"@[5] == 'c',
        "project"@[6] == 't',
        "order"@.len() == 5,
        "order"@[0] == 'o',
        "order"@[1] == 'r',
        "order"@[2] == 'd',
        "order"@[3] == 'e',
        "order"@[4] == 'r',
        "extend"@.len() == 6,
        "extend"@[0] == 'e',
        "extend"@[1] == 'x',
        "extend"@[2] == 't',
        "extend"@[3] == 'e',
        "extend"@[4] == 'n',
        "extend"@[5] == 'd',
        "graph"@.len() == 5,
        "graph"@[0] == 'g',
        "graph"@[1] == 'r',
        "graph"@[2] == 'a',
        "graph"@[3] == 'p',
        "graph"@[4] == 'h',
        "service"@.len() == 7,
        "service"@[0] == 's',
        "service"@[1] == 'e',
        "service"@[2] == 'r',
        "service"@[3] == 'v',
        "service"@[4] == 'i',
        "service"@[5] == 'c',
        "service"@[6] == 'e',
        "join"@.len() == 4,
        "join"@[0] == 'j',
        "join"@[1] == 'o',
        "join"@[2] == 'i',
        "join"@[3] == 'n',
        "leftjoin"@.len() == 8,
        "leftjoin"@[0] == 'l',
        "leftjoin"@[1] == 'e',
        "leftjoin"@[2] == 'f',
        "leftjoin"@[3] == 't',
        "leftjoin"@[4] == 'j',
        "leftjoin"@[5] == 'o',
        "leftjoin"@[6] == 'i',
        "leftjoin"@[7] == 'n',
        "union"@.len() == 5,
        "union"@[0] == 'u',
        "union"@[1] == 'n',
        "union"@[2] == 'i',
        "union"@[3] == 'o',
        "union"@[4] == 'n',
        "minus"@.len() == 5,
        "minus"@[0] == 'm',
        "minus"@[1] == 'i',
        "minus"@[2] == 'n',
        "minus"@[3] == 'u',
        "minus"@[4] == 's',
        "path"@.len() == 4,
        "path"@[0] == 'p',
        "path"@[1] == 'a',
        "path"@[2] == 't',
        "path"@[3] == 'h',
        "slice"@.len() == 5,
        "slice"@[0] == 's',
        "slice"@[1] == 'l',
        "slice"@[2] == 'i',
        "slice"@[3] == 'c',
        "slice"@[4] == 'e',
        "group"@.len() == 5,
        "group"@[0] == 'g',
        "group"@[1] == 'r',
        "group"@[2] == 'o',
        "group"@[3] == 'u',
        "group"@[4] == 'p',
        "ask"@.len() == 3,
        "ask"@[0] == 'a',
        "ask"@[1] == 's',
        "ask"@[2] == 'k',
        "construct"@.len() == 9,
        "construct"@[0] == 'c',
        "construct"@[1] == 'o',
        "construct"@[2] == 'n',
        "construct"@[3] == 's',
        "construct"@[4] == 't',
        "construct"@[5] == 'r',
        "construct"@[6] == 'u',
        "construct"@[7] == 'c',
        "construct"@[8] == 't',
        "describe"@.len() == 8,
        "describe"@[0] == 'd',
        "describe"@[1] == 'e',
        "describe"@[2] == 's',
        "describe"@[3] == 'c',
        "describe"@[4] == 'r',
        "describe"@[5] == 'i',
        "describe"@[6] == 'b',
        "describe"@[7] == 'e',
        "base"@.len() == 4,
        "base"@[0] == 'b',
        "base"@[1] == 'a',
        "base"@[2] == 's',
        "base"@[3] == 'e',
        "dataset"@.len() == 7,
        "dataset"@[0] == 'd',
        "dataset"@[1] == 'a',
        "dataset"@[2] == 't',
        "dataset"@[3] == 'a',
        "dataset"@[4] == 's',
        "dataset"@[5] == 'e',
        "dataset"@[6] == 't',
        "triple"@.len() == 6,
        "triple"@[0] == 't',
        "triple"@[1] == 'r',
        "triple"@[2] == 'i',
        "triple"@[3] == 'p',
        "triple"@[4] == 'l',
        "triple"@[5] == 'e',
        "update"@.len() == 6,
        "update"@[0] == 'u',
        "update"@[1] == 'p',
        "update"@[2] == 'd',
        "update"@[3] == 'a',
        "update"@[4] == 't',
        "update"@[5] == 'e',
        "insertData"@.len() == 10,
        "insertData"@[0] == 'i',
        "insertData"@[1] == 'n',
        "insertData"@[2] == 's',
        "insertData"@[3] == 'e',
        "insertData"@[4] == 'r',
        "insertData"@[5] == 't',
        "insertData"@[6] == 'D',
        "insertData"@[7] == 'a',
        "insertData"@[8] == 't',
        "insertData"@[9] == 'a',
        "deleteData"@.len() == 10,
        "deleteData"@[0] == 'd',
        "deleteData"@[1] == 'e',
        "deleteData"@[2] == 'l',
        "deleteData"@[3] == 'e',
        "deleteData"@[4] == 't',
        "deleteData"@[5] == 'e',
        "deleteData"@[6] == 'D',
        "deleteData"@[7] == 'a',
        "deleteData"@[8] == 't',
        "deleteData"@[9] == 'a',
        "asc"@.len() == 3,
        "asc"@[0] == 'a',
        "asc"@[1] == 's',
        "asc"@[2] == 'c',
        "desc"@.len() == 4,
        "desc"@[0] == 'd',
        "desc"@[1] == 'e',
        "desc"@[2] == 's',
        "desc"@[3] == 'c',
{
    reveal_strlit("bgp");
    reveal_strlit("table");
    reveal_strlit("distinct");
    reveal_strlit("reduced");
    reveal_strlit("filter");
    reveal_strlit("project");
    reveal_strlit("order");
    reveal_strlit("extend");
    reveal_strlit("graph");
    reveal_strlit("service");
    reveal_strlit("join");
    reveal_strlit("leftjoin");
    reveal_strlit("union");
    reveal_strlit("minus");
    reveal_strlit("path");
    reveal_strlit("slice");
    reveal_strlit("group");
    reveal_strlit("ask");
    reveal_strlit("construct");
    reveal_strlit("describe");
    reveal_strlit("base");
    reveal_strlit("dataset");
    reveal_strlit("triple");
    reveal_strlit("update");
    reveal_strlit("insertData");
    reveal_strlit("deleteData");
    reveal_strlit("asc");
    reveal_strlit("desc");
}

/// A list with a word at its head.
pub open spec fn form(h: Seq<char>, args: Seq<Tree>) -> Tree {
    Tree::List(seq![Tree::Atom(h)] + args)
}

proof fn lemma_form(h: Seq<char>, args: Seq<Tree>)
    ensures
        head(form(h, args)) == h,
        items(form(h, args)).len() == args.len() + 1,
        items(form(h, args))[0] == Tree::Atom(h),
        forall|i: int| 0 <= i < args.len() ==> items(form(h, args))[i + 1] == #[trigger] args[i],
        items(form(h, args)).skip(1) == args,
{
    assert(items(form(h, args)).skip(1) =~= args);
}

// --- Terms -----------------------------------------------------------------------------

/// A position as a word: a variable behind a question mark, a term in its usual notation.
pub open spec fn node_tree(n: NodeView) -> Tree {
    match n {
        NodeView::Variable(v) => Tree::Atom(seq!['?'] + v),
        NodeView::Blank(l) => Tree::Atom(term_text(l, TermKind::BlankNode)),
        NodeView::Known(v, k) => Tree::Atom(term_text(v, k)),
    }
}

/// Positions that can be written as one word.
pub open spec fn node_ok(n: NodeView) -> bool {
    match n {
        NodeView::Variable(_) => true,
        NodeView::Blank(l) => writable(TermText { value: l, typ: TermKind::BlankNode }),
        NodeView::Known(v, k) => k != TermKind::BlankNode && writable(TermText { value: v, typ: k }),
    }
}

proof fn lemma_run_all(s: Seq<char>, stop: spec_fn(char) -> bool)
    requires
        forall|i: int| 0 <= i < s.len() ==> !stop(#[trigger] s[i]),
    ensures
        run_length(s, stop) == s.len(),
    decreases s.len(),
{
    if s.len() > 0 {
        assert forall|i: int| 0 <= i < s.drop_first().len() implies !stop(#[trigger] s.drop_first()[i]) by {
            assert(s.drop_first()[i] == s[i + 1]);
        }
        lemma_run_all(s.drop_first(), stop);
    }
}

/// A term that stands alone is read to its end.
proof fn lemma_term_alone(t: TermText)
    requires
        writable(t),
    ensures
        term_rest(term_text(t.value, t.typ)) == Some((t, Seq::<char>::empty())),
        term_text(t.value, t.typ).len() > 0,
        term_text(t.value, t.typ)[0] != '?',
{
    reveal(term_rest);
    let s = term_text(t.value, t.typ);
    let none = Seq::<char>::empty();
    match t.typ {
        TermKind::Iri => {
            assert(s =~= seq!['<'] + t.value + seq!['>'] + none);
            lemma_iri_round_trip(t.value, none);
            assert(s[0] == '<');
        },
        TermKind::BlankNode => {
            assert(s[0] == '_' && s[1] == ':');
            let after = s.skip(2);
            assert(after =~= t.value);
            lemma_run_all(after, |c: char| crate::text::white(c));
            assert(after.take(after.len() as int) =~= after);
            assert(after.skip(after.len() as int) =~= none);
        },
        TermKind::Literal { datatype, lang } => {
            assert(s[0] == '"');
            let body = s.skip(1);
            match lang {
                Some(l) => {
                    let tail = seq!['@'] + l;
                    assert(body =~= escaped(t.value) + seq!['"'] + tail);
                    lemma_quoted_round_trip(t.value, tail);
                    assert(tail[0] == '@');
                    let stop = |c: char| crate::text::white(c);
                    assert forall|i: int| 0 <= i < tail.len() implies !stop(#[trigger] tail[i]) by {
                        if i > 0 {
                            assert(tail[i] == l[i - 1]);
                        }
                    }
                    lemma_run_all(tail, stop);
                    assert(tail.subrange(1, tail.len() as int) =~= l);
                    assert(tail.skip(tail.len() as int) =~= none);
                },
                None => match datatype {
                    Some(d) => {
                        let tail = seq!['^', '^', '<'] + d + seq!['>'];
                        assert(body =~= escaped(t.value) + seq!['"'] + tail);
                        lemma_quoted_round_trip(t.value, tail);
                        assert(tail[0] == '^' && tail[1] == '^');
                        assert(tail.skip(2) =~= seq!['<'] + d + seq!['>'] + none);
                        assert(tail.skip(2)[0] == '<');
                        lemma_iri_round_trip(d, none);
                    },
                    None => {
                        assert(body =~= escaped(t.value) + seq!['"'] + none);
                        lemma_quoted_round_trip(t.value, none);
                    },
                },
            }
        },
    }
}

/// A written position is read back.
pub proof fn law_node_reads(n: NodeView)
    requires
        node_ok(n),
    ensures
        node_read(node_tree(n)) == Some(n),
{
    match n {
        NodeView::Variable(v) => {
            let a = seq!['?'] + v;
            assert(a[0] == '?');
            assert(a.skip(1) =~= v);
        },
        NodeView::Blank(l) => {
            lemma_term_alone(TermText { value: l, typ: TermKind::BlankNode });
        },
        NodeView::Known(v, k) => {
            lemma_term_alone(TermText { value: v, typ: k });
        },
    }
}

/// A name as a variable.
pub open spec fn variable_tree(n: Seq<char>) -> Tree {
    Tree::Atom(seq!['?'] + n)
}

proof fn lemma_variable(n: Seq<char>)
    ensures
        variable_read(variable_tree(n)) == Some(n),
{
    assert((seq!['?'] + n).skip(1) =~= n);
}

pub open spec fn triple_ok(t: TripleView) -> bool {
    node_ok(t.subject) && node_ok(t.predicate) && node_ok(t.object)
}

/// A triple: subject, predicate and object, in this order.
pub open spec fn triple_tree(t: TripleView) -> Tree {
    form("triple"@, seq![node_tree(t.subject), node_tree(t.predicate), node_tree(t.object)])
}

/// A written triple is read back.
pub proof fn law_triple_reads(t: TripleView)
    requires
        triple_ok(t),
    ensures
        triple_read(triple_tree(t)) == Some(t),
        quad_read(triple_tree(t)) == Some(t),
{
    let args = seq![node_tree(t.subject), node_tree(t.predicate), node_tree(t.object)];
    lemma_form("triple"@, args);
    let v = items(triple_tree(t));
    assert(v[1] == args[0] && v[2] == args[1] && v[3] == args[2]);
    law_node_reads(t.subject);
    law_node_reads(t.predicate);
    law_node_reads(t.object);
}

/// A triple that is written in a graph is that triple.
pub proof fn law_triple_in_graph_reads(t: TripleView, name: Tree)
    requires
        triple_ok(t),
    ensures
        quad_read(form("graph"@, seq![name, Tree::List(seq![triple_tree(t)])])) == Some(t),
{
    law_triple_reads(t);
    let args = seq![name, Tree::List(seq![triple_tree(t)])];
    lemma_form("graph"@, args);
    let v = items(form("graph"@, args));
    assert(v[2] == args[1]);
    assert(items(args[1])[0] == triple_tree(t));
}

proof fn lemma_triples(ts: Seq<TripleView>)
    requires
        forall|i: int| 0 <= i < ts.len() ==> triple_ok(#[trigger] ts[i]),
    ensures
        quads_read(ts.map_values(|t: TripleView| triple_tree(t))) == Some(ts),
    decreases ts.len(),
{
    let f = |t: TripleView| triple_tree(t);
    if ts.len() > 0 {
        lemma_triples(ts.drop_last());
        assert(ts.map_values(f).drop_last() =~= ts.drop_last().map_values(f));
        law_triple_reads(ts.last());
        assert(ts =~= ts.drop_last().push(ts.last()));
    } else {
        assert(ts =~= Seq::<TripleView>::empty());
    }
}

// --- Paths -----------------------------------------------------------------------------

/// IRIs that can be written.
pub open spec fn iri_ok(p: Seq<char>) -> bool {
    !p.contains('>')
}

pub open spec fn iri_tree(p: Seq<char>) -> Tree {
    node_tree(NodeView::Known(p, TermKind::Iri))
}

pub open spec fn path_ok(p: PathView) -> bool
    decreases p,
{
    match p {
        PathView::Link(iri) => iri_ok(iri),
        PathView::Negated(iris) => forall|i: int| 0 <= i < iris.len() ==> iri_ok(#[trigger] iris[i]),
        PathView::Reverse(e) => path_ok(*e),
        PathView::ZeroOrMore(e) => path_ok(*e),
        PathView::OneOrMore(e) => path_ok(*e),
        PathView::ZeroOrOne(e) => path_ok(*e),
        PathView::Sequence(a, b) => path_ok(*a) && path_ok(*b),
        PathView::Alternative(a, b) => path_ok(*a) && path_ok(*b),
    }
}

/// A path in its text form: what is walked first stands first.
pub open spec fn path_tree(p: PathView) -> Tree
    decreases p,
{
    match p {
        PathView::Link(iri) => iri_tree(iri),
        PathView::Negated(iris) => form("notoneof"@, iris.map_values(|p: Seq<char>| iri_tree(p))),
        PathView::Reverse(e) => form("reverse"@, seq![path_tree(*e)]),
        PathView::ZeroOrMore(e) => form("path*"@, seq![path_tree(*e)]),
        PathView::OneOrMore(e) => form("path+"@, seq![path_tree(*e)]),
        PathView::ZeroOrOne(e) => form("path?"@, seq![path_tree(*e)]),
        PathView::Sequence(a, b) => form("seq"@, seq![path_tree(*a), path_tree(*b)]),
        PathView::Alternative(a, b) => form("alt"@, seq![path_tree(*a), path_tree(*b)]),
    }
}

proof fn lemma_iri_reads(p: Seq<char>)
    requires
        iri_ok(p),
    ensures
        iri_read(iri_tree(p)) == Some(p),
{
    law_node_reads(NodeView::Known(p, TermKind::Iri));
}

proof fn lemma_iris(ps: Seq<Seq<char>>)
    requires
        forall|i: int| 0 <= i < ps.len() ==> iri_ok(#[trigger] ps[i]),
    ensures
        iris_read(ps.map_values(|p: Seq<char>| iri_tree(p))) == Some(ps),
    decreases ps.len(),
{
    let f = |p: Seq<char>| iri_tree(p);
    if ps.len() > 0 {
        lemma_iris(ps.drop_last());
        assert(ps.map_values(f).drop_last() =~= ps.drop_last().map_values(f));
        lemma_iri_reads(ps.last());
        assert(ps =~= ps.drop_last().push(ps.last()));
    } else {
        assert(ps =~= Seq::<Seq<char>>::empty());
    }
}

/// A written path is read back.
pub proof fn law_path_reads(p: PathView)
    requires
        path_ok(p),
    ensures
        path_read(path_tree(p)) == Some(p),
    decreases p,
{
    lemma_path_words();
    let t = path_tree(p);
    match p {
        PathView::Link(iri) => {
            lemma_iri_reads(iri);
        },
        PathView::Negated(iris) => {
            lemma_form("notoneof"@, iris.map_values(|p: Seq<char>| iri_tree(p)));
            lemma_iris(iris);
        },
        PathView::Reverse(e) => {
            lemma_one("reverse"@, path_tree(*e));
            law_path_reads(*e);
        },
        PathView::ZeroOrMore(e) => {
            lemma_one("path*"@, path_tree(*e));
            law_path_reads(*e);
        },
        PathView::OneOrMore(e) => {
            lemma_one("path+"@, path_tree(*e));
            law_path_reads(*e);
        },
        PathView::ZeroOrOne(e) => {
            lemma_one("path?"@, path_tree(*e));
            law_path_reads(*e);
        },
        PathView::Sequence(a, b) => {
            lemma_two("seq"@, path_tree(*a), path_tree(*b));
            law_path_reads(*a);
            law_path_reads(*b);
        },
        PathView::Alternative(a, b) => {
            lemma_two("alt"@, path_tree(*a), path_tree(*b));
            law_path_reads(*a);
            law_path_reads(*b);
        },
    }
}

proof fn lemma_one(h: Seq<char>, a: Tree)
    ensures
        form(h, seq![a]) is List,
        head(form(h, seq![a])) == h,
        items(form(h, seq![a])).len() == 2,
        items(form(h, seq![a]))[1] == a,
{
    lemma_form(h, seq![a]);
    assert(items(form(h, seq![a]))[1] == seq![a][0]);
}

proof fn lemma_two(h: Seq<char>, a: Tree, b: Tree)
    ensures
        form(h, seq![a, b]) is List,
        head(form(h, seq![a, b])) == h,
        items(form(h, seq![a, b])).len() == 3,
        items(form(h, seq![a, b]))[1] == a,
        items(form(h, seq![a, b]))[2] == b,
{
    lemma_form(h, seq![a, b]);
    assert(items(form(h, seq![a, b]))[1] == seq![a, b][0]);
    assert(items(form(h, seq![a, b]))[2] == seq![a, b][1]);
}

proof fn lemma_three(h: Seq<char>, a: Tree, b: Tree, c: Tree)
    ensures
        form(h, seq![a, b, c]) is List,
        head(form(h, seq![a, b, c])) == h,
        items(form(h, seq![a, b, c])).len() == 4,
        items(form(h, seq![a, b, c]))[1] == a,
        items(form(h, seq![a, b, c]))[2] == b,
        items(form(h, seq![a, b, c]))[3] == c,
{
    let s = seq![a, b, c];
    lemma_form(h, s);
    assert(items(form(h, s))[1] == s[0]);
    assert(items(form(h, s))[2] == s[1]);
    assert(items(form(h, s))[3] == s[2]);
}

/// The path of `(seq x y)` connects two nodes exactly if some node is reached from the
/// first by the path of `x`, and the second from it by the path of `y`.
pub proof fn law_sequence_read(
    set: Set<IdTriple>,
    keys: Seq<Seq<char>>,
    x: Tree,
    y: Tree,
    p: PathView,
    q: PathView,
    a: u32,
    b: u32,
)
    requires
        path_read(x) == Some(p),
        path_read(y) == Some(q),
    ensures
        path_read(form("seq"@, seq![x, y])) is Some,
        linked(set, keys, path_read(form("seq"@, seq![x, y]))->0, a, b) <==> exists|c: u32| #[trigger]
            linked(set, keys, p, a, c) && linked(set, keys, q, c, b),
{
    lemma_path_words();
    lemma_two("seq"@, x, y);
    law_sequence(set, keys, p, q, a, b);
}

// --- Expressions -------------------------------------------------------------------------

/// The word of an operation.
pub open spec fn operator(op: BinaryOp) -> Seq<char> {
    match op {
        BinaryOp::Or => "||"@,
        BinaryOp::And => "&&"@,
        BinaryOp::Equal => "="@,
        BinaryOp::SameTerm => "sameTerm"@,
        BinaryOp::Greater => ">"@,
        BinaryOp::GreaterOrEqual => ">="@,
        BinaryOp::Less => "<"@,
        BinaryOp::LessOrEqual => "<="@,
        BinaryOp::Plus => "+"@,
        BinaryOp::Minus => "-"@,
        BinaryOp::Times => "*"@,
        BinaryOp::Divide => "/"@,
    }
}

/// The word of an operation on one value.
pub open spec fn sign(op: UnaryOp) -> Seq<char> {
    match op {
        UnaryOp::Not => "!"@,
        UnaryOp::Plus => "+"@,
        UnaryOp::Minus => "-"@,
    }
}

/// The word of a function.
pub open spec fn function_name(f: Function) -> Seq<char> {
    match f {
        Function::Str => "str"@,
        Function::Lang => "lang"@,
        Function::Datatype => "datatype"@,
        Function::StrLen => "strlen"@,
        Function::UCase => "ucase"@,
        Function::LCase => "lcase"@,
        Function::Contains => "contains"@,
        Function::StrStarts => "strstarts"@,
        Function::StrEnds => "strends"@,
        Function::IsIri => "isiri"@,
        Function::IsBlank => "isblank"@,
        Function::IsLiteral => "isliteral"@,
        Function::IsNumeric => "isnumeric"@,
        Function::Regex => "regex"@,
    }
}

proof fn lemma_operator(op: BinaryOp)
    ensures
        binary_word(operator(op)) == Some(op),
{
    lemma_operator_words();
}

proof fn lemma_sign(op: UnaryOp)
    ensures
        unary_word(sign(op)) == Some(op),
{
    lemma_operator_words();
}

proof fn lemma_function(f: Function)
    ensures
        function_word(function_name(f)) == Some(f),
        binary_word(function_name(f)) is None,
        unary_word(function_name(f)) is None,
        function_name(f) != "bound"@,
        function_name(f) != "in"@,
        function_name(f) != "if"@,
{
    lemma_operator_words();
    lemma_function_words();
}

proof fn lemma_choice_words()
    ensures
        binary_word("bound"@) is None,
        unary_word("bound"@) is None,
        binary_word("in"@) is None,
        unary_word("in"@) is None,
        binary_word("if"@) is None,
        unary_word("if"@) is None,
        "in"@ != "bound"@,
        "if"@ != "bound"@,
        "if"@ != "in"@,
{
    lemma_operator_words();
    lemma_function_words();
}

/// Expressions that can be written.
pub open spec fn expr_ok(e: ExprView) -> bool
    decreases e,
{
    match e {
        ExprView::Known(v, k) => node_ok(NodeView::Known(v, k)),
        ExprView::Variable(_) => true,
        ExprView::Binary(_, a, b) => expr_ok(*a) && expr_ok(*b),
        ExprView::Unary(_, a) => expr_ok(*a),
        ExprView::Bound(_) => true,
        ExprView::In(x, list) => expr_ok(*x) && forall|i: int|
            0 <= i < list.len() ==> expr_ok(#[trigger] list[i]),
        ExprView::If(c, a, b) => expr_ok(*c) && expr_ok(*a) && expr_ok(*b),
        ExprView::Call(_, args) => forall|i: int| 0 <= i < args.len() ==> expr_ok(#[trigger] args[i]),
        ExprView::Unsupported(_) => false,
    }
}

/// An expression in its text form: the word, then the operands in their order.
pub open spec fn expr_tree(e: ExprView) -> Tree
    decreases e,
{
    match e {
        ExprView::Known(v, k) => node_tree(NodeView::Known(v, k)),
        ExprView::Variable(n) => variable_tree(n),
        ExprView::Binary(op, a, b) => form(operator(op), seq![expr_tree(*a), expr_tree(*b)]),
        ExprView::Unary(op, a) => form(sign(op), seq![expr_tree(*a)]),
        ExprView::Bound(n) => form("bound"@, seq![variable_tree(n)]),
        ExprView::In(x, list) => form(
            "in"@,
            seq![expr_tree(*x)] + Seq::new(
                list.len(),
                |i: int|
                    if 0 <= i < list.len() {
                        expr_tree(list[i])
                    } else {
                        arbitrary()
                    },
            ),
        ),
        ExprView::If(c, a, b) => form("if"@, seq![expr_tree(*c), expr_tree(*a), expr_tree(*b)]),
        ExprView::Call(f, args) => form(
            function_name(f),
            Seq::new(
                args.len(),
                |i: int|
                    if 0 <= i < args.len() {
                        expr_tree(args[i])
                    } else {
                        arbitrary()
                    },
            ),
        ),
        ExprView::Unsupported(n) => Tree::Atom(n),
    }
}

proof fn lemma_exprs(v: Seq<Tree>, from: int, list: Seq<ExprView>, k: int)
    requires
        0 <= from,
        0 <= k <= list.len(),
        v.len() == from + list.len(),
        forall|i: int| 0 <= i < list.len() ==> expr_read(#[trigger] v[from + i]) == Some(list[i]),
    ensures
        exprs_read(v, from + k) == Some(list.skip(k)),
    decreases list.len() - k,
{
    if k < list.len() {
        lemma_exprs(v, from, list, k + 1);
        assert(expr_read(v[from + k]) == Some(list[k]));
        assert(seq![list[k]] + list.skip(k + 1) =~= list.skip(k));
        reveal_with_fuel(exprs_read, 2);
    } else {
        assert(list.skip(k) =~= Seq::<ExprView>::empty());
    }
}

/// A written expression is read back.
pub proof fn law_expr_reads(e: ExprView)
    requires
        expr_ok(e),
    ensures
        expr_read(expr_tree(e)) == Some(e),
    decreases e,
{
    let t = expr_tree(e);
    match e {
        ExprView::Known(v, k) => {
            law_node_reads(NodeView::Known(v, k));
        },
        ExprView::Variable(n) => {
            law_node_reads(NodeView::Variable(n));
        },
        ExprView::Binary(op, a, b) => {
            lemma_operator(op);
            lemma_two(operator(op), expr_tree(*a), expr_tree(*b));
            law_expr_reads(*a);
            law_expr_reads(*b);
        },
        ExprView::Unary(op, a) => {
            lemma_sign(op);
            lemma_one(sign(op), expr_tree(*a));
            law_expr_reads(*a);
        },
        ExprView::Bound(n) => {
            lemma_choice_words();
            lemma_one("bound"@, variable_tree(n));
            lemma_variable(n);
        },
        ExprView::In(x, list) => {
            lemma_choice_words();
            let args = seq![expr_tree(*x)] + Seq::new(
                list.len(),
                |i: int|
                    if 0 <= i < list.len() {
                        expr_tree(list[i])
                    } else {
                        arbitrary()
                    },
            );
            lemma_form("in"@, args);
            let v = items(t);
            assert(v[1] == args[0]);
            law_expr_reads(*x);
            assert forall|i: int| 0 <= i < list.len() implies expr_read(#[trigger] v[2 + i]) == Some(list[i]) by {
                assert(v[i + 1 + 1] == args[i + 1]);
                assert(args[i + 1] == expr_tree(list[i]));
                law_expr_reads(list[i]);
            }
            lemma_exprs(v, 2, list, 0);
            assert(list.skip(0) =~= list);
        },
        ExprView::If(c, a, b) => {
            lemma_choice_words();
            lemma_three("if"@, expr_tree(*c), expr_tree(*a), expr_tree(*b));
            law_expr_reads(*c);
            law_expr_reads(*a);
            law_expr_reads(*b);
        },
        ExprView::Call(f, args) => {
            lemma_function(f);
            let ts = Seq::new(
                args.len(),
                |i: int|
                    if 0 <= i < args.len() {
                        expr_tree(args[i])
                    } else {
                        arbitrary()
                    },
            );
            lemma_form(function_name(f), ts);
            let v = items(t);
            assert forall|i: int| 0 <= i < args.len() implies expr_read(#[trigger] v[1 + i]) == Some(args[i]) by {
                assert(v[i + 1] == ts[i]);
                law_expr_reads(args[i]);
            }
            lemma_exprs(v, 1, args, 0);
            assert(args.skip(0) =~= args);
        },
        ExprView::Unsupported(_) => {},
    }
}

// --- Aggregates and sort criteria -----------------------------------------------------------

/// The word of an aggregate.
pub open spec fn aggregate_name(f: AggregateFnView) -> Seq<char> {
    match f {
        AggregateFnView::Count => "count"@,
        AggregateFnView::Sum => "sum"@,
        AggregateFnView::Avg => "avg"@,
        AggregateFnView::Min => "min"@,
        AggregateFnView::Max => "max"@,
        AggregateFnView::Sample => "sample"@,
        AggregateFnView::Concat(_) => "group_concat"@,
        AggregateFnView::Unsupported(n) => n,
    }
}

/// Aggregates that can be written: only a count has no argument.
pub open spec fn aggregate_ok(a: AggregateView) -> bool {
    &&& !(a.function is Unsupported)
    &&& match a.argument {
        Some(e) => expr_ok(e),
        None => a.function is Count,
    }
}

/// The mark of an aggregate that takes every value once.
pub open spec fn distinct_mark(distinct: bool) -> Seq<Tree> {
    if distinct {
        seq![Tree::Atom("distinct"@)]
    } else {
        Seq::empty()
    }
}

/// The argument and, for a concatenation, the separator.
pub open spec fn argument_trees(a: AggregateView) -> Seq<Tree> {
    match a.argument {
        None => Seq::empty(),
        Some(e) => match a.function {
            AggregateFnView::Concat(sep) => seq![
                expr_tree(e),
                node_tree(
                    NodeView::Known(sep, TermKind::Literal { datatype: None, lang: None }),
                ),
            ],
            _ => seq![expr_tree(e)],
        },
    }
}

/// An aggregate with the variable that gets its value.
pub open spec fn aggregate_tree(a: AggregateView) -> Tree {
    Tree::List(
        seq![
            form(aggregate_name(a.function), distinct_mark(a.distinct) + argument_trees(a)),
            variable_tree(a.variable),
        ],
    )
}

/// No expression is written as the mark of distinctness.
proof fn lemma_not_the_mark(e: ExprView)
    requires
        expr_ok(e),
    ensures
        expr_tree(e) != Tree::Atom("distinct"@),
{
    lemma_aggregate_words();
    match e {
        ExprView::Known(v, k) => {
            let t = term_text(v, k);
            lemma_term_alone(TermText { value: v, typ: k });
            match k {
                TermKind::Iri => {
                    assert(t[0] == '<');
                },
                TermKind::Literal { .. } => {
                    assert(t[0] == '"');
                },
                TermKind::BlankNode => {},
            }
        },
        ExprView::Variable(n) => {
            assert((seq!['?'] + n)[0] == '?');
        },
        _ => {},
    }
}

/// A written aggregate is read back.
pub proof fn law_aggregate_reads(a: AggregateView)
    requires
        aggregate_ok(a),
    ensures
        named_aggregate_read(aggregate_tree(a)) == Some(a),
{
    lemma_aggregate_words();
    let h = aggregate_name(a.function);
    let args = distinct_mark(a.distinct) + argument_trees(a);
    let inner = form(h, args);
    let v = items(inner);
    lemma_form(h, args);
    lemma_variable(a.variable);
    let outer = items(aggregate_tree(a));
    assert(outer[0] == inner && outer[1] == variable_tree(a.variable));
    let at: int = if a.distinct {
        2
    } else {
        1
    };
    if a.distinct {
        assert(args[0] == Tree::Atom("distinct"@));
        assert(v[1] == args[0]);
    }
    match a.argument {
        None => {},
        Some(e) => {
            let ts = argument_trees(a);
            assert(ts[0] == expr_tree(e));
            assert(args[at - 1] == expr_tree(e));
            assert(v[at] == args[at - 1]);
            lemma_not_the_mark(e);
            law_expr_reads(e);
            if let AggregateFnView::Concat(sep) = a.function {
                let n = NodeView::Known(sep, TermKind::Literal { datatype: None, lang: None });
                assert(ts[1] == node_tree(n));
                assert(args[at] == ts[1]);
                assert(v[at + 1] == args[at]);
                law_node_reads(n);
            }
        },
    }
    assert(aggregate_read(v, a.variable) == Some(a));
}

/// A concatenation that is written without a separator has a space for it.
pub proof fn law_plain_concatenation(e: ExprView, distinct: bool, variable: Seq<char>)
    requires
        expr_ok(e),
    ensures
        named_aggregate_read(
            Tree::List(
                seq![
                    form("group_concat"@, distinct_mark(distinct) + seq![expr_tree(e)]),
                    variable_tree(variable),
                ],
            ),
        ) == Some(
            AggregateView { function: AggregateFnView::Concat(" "@), distinct, argument: Some(e), variable },
        ),
{
    lemma_aggregate_words();
    let args = distinct_mark(distinct) + seq![expr_tree(e)];
    let inner = form("group_concat"@, args);
    let v = items(inner);
    lemma_form("group_concat"@, args);
    lemma_variable(variable);
    let outer = seq![inner, variable_tree(variable)];
    assert(items(Tree::List(outer)) == outer);
    let at: int = if distinct {
        2
    } else {
        1
    };
    if distinct {
        assert(args[0] == Tree::Atom("distinct"@));
        assert(v[1] == args[0]);
    }
    assert(args[at - 1] == expr_tree(e));
    assert(v[at] == args[at - 1]);
    lemma_not_the_mark(e);
    law_expr_reads(e);
    assert(v.len() == at + 1);
    assert(aggregate_read(v, variable) == Some(
        AggregateView { function: AggregateFnView::Concat(" "@), distinct, argument: Some(e), variable },
    ));
}

proof fn lemma_aggregates(list: Seq<AggregateView>)
    requires
        forall|i: int| 0 <= i < list.len() ==> aggregate_ok(#[trigger] list[i]),
    ensures
        aggregates_read(list.map_values(|a: AggregateView| aggregate_tree(a))) == Some(list),
    decreases list.len(),
{
    let f = |a: AggregateView| aggregate_tree(a);
    if list.len() > 0 {
        lemma_aggregates(list.drop_last());
        assert(list.map_values(f).drop_last() =~= list.drop_last().map_values(f));
        law_aggregate_reads(list.last());
        assert(list =~= list.drop_last().push(list.last()));
    } else {
        assert(list =~= Seq::<AggregateView>::empty());
    }
}

/// A sort criterion: ascending or descending.
pub open spec fn order_tree(o: OrderByView) -> Tree {
    if o.descending {
        form("desc"@, seq![expr_tree(o.expr)])
    } else {
        form("asc"@, seq![expr_tree(o.expr)])
    }
}

/// A written sort criterion is read back.
pub proof fn law_order_reads(o: OrderByView)
    requires
        expr_ok(o.expr),
    ensures
        order_read(order_tree(o)) == Some(o),
{
    lemma_aggregate_words();
    lemma_one("desc"@, expr_tree(o.expr));
    lemma_one("asc"@, expr_tree(o.expr));
    law_expr_reads(o.expr);
}

proof fn lemma_orders(list: Seq<OrderByView>)
    requires
        forall|i: int| 0 <= i < list.len() ==> expr_ok((#[trigger] list[i]).expr),
    ensures
        orders_read(list.map_values(|o: OrderByView| order_tree(o))) == Some(list),
    decreases list.len(),
{
    let f = |o: OrderByView| order_tree(o);
    if list.len() > 0 {
        lemma_orders(list.drop_last());
        assert(list.map_values(f).drop_last() =~= list.drop_last().map_values(f));
        law_order_reads(list.last());
        assert(list =~= list.drop_last().push(list.last()));
    } else {
        assert(list =~= Seq::<OrderByView>::empty());
    }
}

proof fn lemma_variables(ns: Seq<Seq<char>>)
    ensures
        variables_read(ns.map_values(|n: Seq<char>| variable_tree(n))) == Some(ns),
    decreases ns.len(),
{
    let f = |n: Seq<char>| variable_tree(n);
    if ns.len() > 0 {
        lemma_variables(ns.drop_last());
        assert(ns.map_values(f).drop_last() =~= ns.drop_last().map_values(f));
        lemma_variable(ns.last());
        assert(ns =~= ns.drop_last().push(ns.last()));
    } else {
        assert(ns =~= Seq::<Seq<char>>::empty());
    }
}

// --- Patterns --------------------------------------------------------------------------------

/// Patterns that can be written.
pub open spec fn pattern_ok(p: PatternView) -> bool
    decreases p,
{
    match p {
        PatternView::Bgp(ts) => forall|i: int| 0 <= i < ts.len() ==> triple_ok(#[trigger] ts[i]),
        PatternView::Path(s, path, o) => node_ok(s) && path_ok(path) && node_ok(o),
        PatternView::Join(a, b) => pattern_ok(*a) && pattern_ok(*b),
        PatternView::LeftJoin(a, b, e) => pattern_ok(*a) && pattern_ok(*b) && match e {
            Some(x) => expr_ok(x),
            None => true,
        },
        PatternView::Union(a, b) => pattern_ok(*a) && pattern_ok(*b),
        PatternView::Minus(a, b) => pattern_ok(*a) && pattern_ok(*b),
        PatternView::Filter(e, q) => expr_ok(e) && pattern_ok(*q),
        PatternView::Extend(q, _, e) => pattern_ok(*q) && expr_ok(e),
        PatternView::Group(_, aggs, q) => pattern_ok(*q) && forall|i: int|
            0 <= i < aggs.len() ==> aggregate_ok(#[trigger] aggs[i]),
        PatternView::Project(_, q) => pattern_ok(*q),
        PatternView::Distinct(q) => pattern_ok(*q),
        PatternView::Reduced(q) => pattern_ok(*q),
        PatternView::Slice(_, _, q) => pattern_ok(*q),
        PatternView::Order(os, q) => pattern_ok(*q) && forall|i: int|
            0 <= i < os.len() ==> expr_ok((#[trigger] os[i]).expr),
        PatternView::Graph(q) => pattern_ok(*q),
        PatternView::Service(q) => pattern_ok(*q),
        PatternView::Values => true,
    }
}

/// A bound of a slice.
pub open spec fn bound_tree(n: Option<usize>) -> Tree {
    match n {
        Some(k) => Tree::Atom(decimal(k as nat)),
        None => Tree::Atom("_"@),
    }
}

/// A pattern in its text form, with `name` for the graph or the service where one is named.
pub open spec fn pattern_tree(p: PatternView, name: Tree) -> Tree
    decreases p,
{
    match p {
        PatternView::Bgp(ts) => form("bgp"@, ts.map_values(|t: TripleView| triple_tree(t))),
        PatternView::Path(s, path, o) => form("path"@, seq![node_tree(s), path_tree(path), node_tree(o)]),
        PatternView::Join(a, b) => form("join"@, seq![pattern_tree(*a, name), pattern_tree(*b, name)]),
        PatternView::LeftJoin(a, b, e) => match e {
            None => form("leftjoin"@, seq![pattern_tree(*a, name), pattern_tree(*b, name)]),
            Some(x) => form(
                "leftjoin"@,
                seq![pattern_tree(*a, name), pattern_tree(*b, name), expr_tree(x)],
            ),
        },
        PatternView::Union(a, b) => form("union"@, seq![pattern_tree(*a, name), pattern_tree(*b, name)]),
        PatternView::Minus(a, b) => form("minus"@, seq![pattern_tree(*a, name), pattern_tree(*b, name)]),
        PatternView::Filter(e, q) => form("filter"@, seq![expr_tree(e), pattern_tree(*q, name)]),
        PatternView::Extend(q, v, e) => form(
            "extend"@,
            seq![
                Tree::List(seq![Tree::List(seq![variable_tree(v), expr_tree(e)])]),
                pattern_tree(*q, name),
            ],
        ),
        PatternView::Group(by, aggs, q) => form(
            "group"@,
            seq![
                Tree::List(by.map_values(|n: Seq<char>| variable_tree(n))),
                Tree::List(aggs.map_values(|a: AggregateView| aggregate_tree(a))),
                pattern_tree(*q, name),
            ],
        ),
        PatternView::Project(vars, q) => form(
            "project"@,
            seq![Tree::List(vars.map_values(|n: Seq<char>| variable_tree(n))), pattern_tree(*q, name)],
        ),
        PatternView::Distinct(q) => form("distinct"@, seq![pattern_tree(*q, name)]),
        PatternView::Reduced(q) => form("reduced"@, seq![pattern_tree(*q, name)]),
        PatternView::Slice(start, length, q) => form(
            "slice"@,
            seq![bound_tree(Some(start)), bound_tree(length), pattern_tree(*q, name)],
        ),
        PatternView::Order(os, q) => form(
            "order"@,
            seq![Tree::List(os.map_values(|o: OrderByView| order_tree(o))), pattern_tree(*q, name)],
        ),
        PatternView::Graph(q) => form("graph"@, seq![name, pattern_tree(*q, name)]),
        PatternView::Service(q) => form("service"@, seq![name, pattern_tree(*q, name)]),
        PatternView::Values => form("table"@, Seq::empty()),
    }
}

proof fn lemma_bound(n: Option<usize>)
    ensures
        bound_read(bound_tree(n)) == Some(n),
{
    reveal_strlit("_");
    assert("_"@.len() == 1 && "_"@[0] == '_');
    if let Some(k) = n {
        law_decimal_reads_back(k as nat);
        assert('0' <= decimal(k as nat)[0] <= '9');
    }
}

/// A written pattern is read back.
#[verifier::rlimit(40)]
pub proof fn law_pattern_reads(p: PatternView, name: Tree)
    requires
        pattern_ok(p),
    ensures
        pattern_read(pattern_tree(p, name)) == Some(p),
        pattern_tree(p, name) is List,
        head(pattern_tree(p, name)) != "ask"@,
        head(pattern_tree(p, name)) != "base"@,
        head(pattern_tree(p, name)) != "dataset"@,
        head(pattern_tree(p, name)) != "construct"@,
        head(pattern_tree(p, name)) != "describe"@,
    decreases p,
{
    lemma_pattern_words();
    match p {
        PatternView::Bgp(ts) => {
            lemma_form("bgp"@, ts.map_values(|t: TripleView| triple_tree(t)));
            lemma_triples(ts);
        },
        PatternView::Path(s, path, o) => {
            lemma_three("path"@, node_tree(s), path_tree(path), node_tree(o));
            law_node_reads(s);
            law_path_reads(path);
            law_node_reads(o);
        },
        PatternView::Join(a, b) => {
            lemma_two("join"@, pattern_tree(*a, name), pattern_tree(*b, name));
            law_pattern_reads(*a, name);
            law_pattern_reads(*b, name);
        },
        PatternView::LeftJoin(a, b, e) => {
            law_pattern_reads(*a, name);
            law_pattern_reads(*b, name);
            match e {
                None => {
                    lemma_two("leftjoin"@, pattern_tree(*a, name), pattern_tree(*b, name));
                },
                Some(x) => {
                    lemma_three("leftjoin"@, pattern_tree(*a, name), pattern_tree(*b, name), expr_tree(x));
                    law_expr_reads(x);
                },
            }
        },
        PatternView::Union(a, b) => {
            lemma_two("union"@, pattern_tree(*a, name), pattern_tree(*b, name));
            law_pattern_reads(*a, name);
            law_pattern_reads(*b, name);
        },
        PatternView::Minus(a, b) => {
            lemma_two("minus"@, pattern_tree(*a, name), pattern_tree(*b, name));
            law_pattern_reads(*a, name);
            law_pattern_reads(*b, name);
        },
        PatternView::Filter(e, q) => {
            lemma_two("filter"@, expr_tree(e), pattern_tree(*q, name));
            law_expr_reads(e);
            law_pattern_reads(*q, name);
        },
        PatternView::Extend(q, v, e) => {
            let pair = seq![variable_tree(v), expr_tree(e)];
            let binding = Tree::List(seq![Tree::List(pair)]);
            lemma_two("extend"@, binding, pattern_tree(*q, name));
            lemma_variable(v);
            law_expr_reads(e);
            law_pattern_reads(*q, name);
            assert(items(binding)[0] == Tree::List(pair));
            assert(pair[0] == variable_tree(v) && pair[1] == expr_tree(e));
            assert(binding_read(binding) == Some((v, e)));
        },
        PatternView::Group(by, aggs, q) => {
            let ns = by.map_values(|n: Seq<char>| variable_tree(n));
            let ts = aggs.map_values(|a: AggregateView| aggregate_tree(a));
            lemma_three("group"@, Tree::List(ns), Tree::List(ts), pattern_tree(*q, name));
            lemma_variables(by);
            lemma_aggregates(aggs);
            law_pattern_reads(*q, name);
        },
        PatternView::Project(vars, q) => {
            let ns = vars.map_values(|n: Seq<char>| variable_tree(n));
            lemma_two("project"@, Tree::List(ns), pattern_tree(*q, name));
            lemma_variables(vars);
            law_pattern_reads(*q, name);
        },
        PatternView::Distinct(q) => {
            lemma_one("distinct"@, pattern_tree(*q, name));
            law_pattern_reads(*q, name);
        },
        PatternView::Reduced(q) => {
            lemma_one("reduced"@, pattern_tree(*q, name));
            law_pattern_reads(*q, name);
        },
        PatternView::Slice(start, length, q) => {
            lemma_three("slice"@, bound_tree(Some(start)), bound_tree(length), pattern_tree(*q, name));
            lemma_bound(Some(start));
            lemma_bound(length);
            law_pattern_reads(*q, name);
        },
        PatternView::Order(os, q) => {
            let ts = os.map_values(|o: OrderByView| order_tree(o));
            lemma_two("order"@, Tree::List(ts), pattern_tree(*q, name));
            lemma_orders(os);
            law_pattern_reads(*q, name);
        },
        PatternView::Graph(q) => {
            lemma_two("graph"@, name, pattern_tree(*q, name));
            law_pattern_reads(*q, name);
        },
        PatternView::Service(q) => {
            lemma_two("service"@, name, pattern_tree(*q, name));
            law_pattern_reads(*q, name);
        },
        PatternView::Values => {
            lemma_form("table"@, Seq::empty());
        },
    }
}

// --- Queries and updates -----------------------------------------------------------------------

/// A query in its text form.
pub open spec fn query_tree(q: QueryView, name: Tree) -> Tree {
    match q {
        QueryView::Select(p) => pattern_tree(p, name),
        QueryView::Ask(p) => form("ask"@, seq![pattern_tree(p, name)]),
        QueryView::Other => form("construct"@, Seq::empty()),
    }
}

/// Queries that can be written.
pub open spec fn query_ok(q: QueryView) -> bool {
    match q {
        QueryView::Select(p) => pattern_ok(p),
        QueryView::Ask(p) => pattern_ok(p),
        QueryView::Other => true,
    }
}

/// A written query is read back, with or without a base IRI around it. The graphs that it
/// is asked of do not matter.
pub proof fn law_query_reads(q: QueryView, name: Tree, base: Tree, graphs: Tree)
    requires
        query_ok(q),
    ensures
        query_read(query_tree(q, name)) == Some(q),
        query_read(form("base"@, seq![base, query_tree(q, name)])) == Some(q),
        q matches QueryView::Select(p) ==> query_read(form("dataset"@, seq![graphs, pattern_tree(p, name)]))
            == Some(q),
        q matches QueryView::Ask(p) ==> query_read(
            form("ask"@, seq![form("dataset"@, seq![graphs, pattern_tree(p, name)])]),
        ) == Some(q),
{
    lemma_pattern_words();
    let t = query_tree(q, name);
    lemma_two("base"@, base, t);
    match q {
        QueryView::Select(p) => {
            law_pattern_reads(p, name);
            lemma_two("dataset"@, graphs, t);
        },
        QueryView::Ask(p) => {
            law_pattern_reads(p, name);
            lemma_one("ask"@, pattern_tree(p, name));
            let d = form("dataset"@, seq![graphs, pattern_tree(p, name)]);
            lemma_two("dataset"@, graphs, pattern_tree(p, name));
            lemma_one("ask"@, d);
        },
        QueryView::Other => {
            lemma_form("construct"@, Seq::empty());
        },
    }
}

/// An operation of an update in its text form.
pub open spec fn op_tree(o: UpdateOpView) -> Tree {
    match o {
        UpdateOpView::Insert(ts) => form(
            "insertData"@,
            seq![Tree::List(ts.map_values(|t: TripleView| triple_tree(t)))],
        ),
        UpdateOpView::Delete(ts) => form(
            "deleteData"@,
            seq![Tree::List(ts.map_values(|t: TripleView| triple_tree(t)))],
        ),
        UpdateOpView::Other => Tree::List(Seq::empty()),
    }
}

pub open spec fn op_ok(o: UpdateOpView) -> bool {
    match o {
        UpdateOpView::Insert(ts) => forall|i: int| 0 <= i < ts.len() ==> triple_ok(#[trigger] ts[i]),
        UpdateOpView::Delete(ts) => forall|i: int| 0 <= i < ts.len() ==> triple_ok(#[trigger] ts[i]),
        UpdateOpView::Other => true,
    }
}

/// A written operation is read back: what is inserted as inserted, what is deleted as
/// deleted.
pub proof fn law_operation_reads(o: UpdateOpView)
    requires
        op_ok(o),
    ensures
        op_read(op_tree(o)) == Some(o),
{
    lemma_pattern_words();
    match o {
        UpdateOpView::Insert(ts) => {
            lemma_one("insertData"@, Tree::List(ts.map_values(|t: TripleView| triple_tree(t))));
            lemma_triples(ts);
        },
        UpdateOpView::Delete(ts) => {
            lemma_one("deleteData"@, Tree::List(ts.map_values(|t: TripleView| triple_tree(t))));
            lemma_triples(ts);
        },
        UpdateOpView::Other => {},
    }
}

/// Written operations are read back, in their order.
pub proof fn law_operations_read(ops: Seq<UpdateOpView>)
    requires
        forall|i: int| 0 <= i < ops.len() ==> op_ok(#[trigger] ops[i]),
    ensures
        ops_read(ops.map_values(|o: UpdateOpView| op_tree(o))) == Some(ops),
    decreases ops.len(),
{
    let f = |o: UpdateOpView| op_tree(o);
    if ops.len() > 0 {
        law_operations_read(ops.drop_last());
        assert(ops.map_values(f).drop_last() =~= ops.drop_last().map_values(f));
        law_operation_reads(ops.last());
        assert(ops =~= ops.drop_last().push(ops.last()));
    } else {
        assert(ops =~= Seq::<UpdateOpView>::empty());
    }
}

} // verus!
