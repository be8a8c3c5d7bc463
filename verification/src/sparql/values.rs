//! Values of expressions.

use crate::bytes::Side;
use crate::hypertrie::dictionary::{
    key_kind, key_value, opt_text, Dictionary, TermKind, TermType,
};
use crate::sparql::numbers::{
    ask_number, compare_numbers, flag_number, number_equal, number_in, number_side, numbers_equal,
    numbers_ok, replies, NumberCall, NumberCallView, NumberReply, Replies, ONE_BITS,
};
use crate::text::{compare_text, owned, same_text, starts_with_text, text_side};
use vstd::prelude::*;

verus! {

/// The value of an expression.
#[derive(Debug)]
pub enum Value {
    Iri(String),
    Blank(String),
    /// A plain literal.
    Str(String),
    /// A numeric literal, as the bits of a double.
    Num(u64),
    Bool(bool),
    /// A literal with a language tag.
    Lang(String, String),
    /// A literal of any other datatype.
    Typed(String, String),
}

#[verifier::ext_equal]
pub enum Val {
    Iri(Seq<char>),
    Blank(Seq<char>),
    Str(Seq<char>),
    Num(u64),
    Bool(bool),
    Lang(Seq<char>, Seq<char>),
    Typed(Seq<char>, Seq<char>),
}

impl View for Value {
    type V = Val;

    open spec fn view(&self) -> Val {
        match self {
            Value::Iri(s) => Val::Iri(s@),
            Value::Blank(s) => Val::Blank(s@),
            Value::Str(s) => Val::Str(s@),
            Value::Num(n) => Val::Num(*n),
            Value::Bool(b) => Val::Bool(*b),
            Value::Lang(s, l) => Val::Lang(s@, l@),
            Value::Typed(s, d) => Val::Typed(s@, d@),
        }
    }
}

/// The view of an optional value.
pub open spec fn opt_val(v: Option<Value>) -> Option<Val> {
    match v {
        Some(x) => Some(x@),
        None => None,
    }
}

/// The namespace of the XML Schema datatypes.
pub open spec fn xsd() -> Seq<char> {
    "http://www.w3.org/2001/XMLSchema#"@
}

/// The names of the numeric datatypes.
pub open spec fn numeric_name(n: Seq<char>) -> bool {
    ||| n == "integer"@
    ||| n == "decimal"@
    ||| n == "double"@
    ||| n == "float"@
    ||| n == "int"@
    ||| n == "long"@
    ||| n == "short"@
    ||| n == "byte"@
    ||| n == "nonNegativeInteger"@
    ||| n == "positiveInteger"@
    ||| n == "nonPositiveInteger"@
    ||| n == "negativeInteger"@
    ||| n == "unsignedInt"@
    ||| n == "unsignedLong"@
    ||| n == "unsignedShort"@
    ||| n == "unsignedByte"@
}

/// The name of an XML Schema datatype.
pub open spec fn xsd_name(dt: Seq<char>) -> Option<Seq<char>> {
    if crate::text::has_prefix(dt, xsd()) {
        Some(dt.skip(xsd().len() as int))
    } else {
        None
    }
}

/// Whether the name of a datatype, without its namespace, is numeric.
fn is_numeric_name(n: &str) -> (r: bool)
    ensures
        r == numeric_name(n@),
{
    same_text(n, "integer") || same_text(n, "decimal") || same_text(n, "double") || same_text(
        n,
        "float",
    ) || same_text(n, "int") || same_text(n, "long") || same_text(n, "short") || same_text(n, "byte")
        || same_text(n, "nonNegativeInteger") || same_text(n, "positiveInteger") || same_text(
        n,
        "nonPositiveInteger",
    ) || same_text(n, "negativeInteger") || same_text(n, "unsignedInt") || same_text(
        n,
        "unsignedLong",
    ) || same_text(n, "unsignedShort") || same_text(n, "unsignedByte")
}

/// The name of an XML Schema datatype, without the namespace.
fn strip_xsd(dt: &str) -> (r: Option<String>)
    ensures
        match r {
            Some(n) => xsd_name(dt@) == Some(n@),
            None => xsd_name(dt@) is None,
        },
{
    let prefix: &str = "http://www.w3.org/2001/XMLSchema#";
    if !starts_with_text(dt, prefix) {
        return None;
    }
    let cs: Vec<char> = crate::text::chars_of(dt);
    let n: usize = crate::text::text_len(prefix);
    let s: String = crate::text::string_of(vstd::slice::slice_subrange(cs.as_slice(), n, cs.len()));
    assert(s@ =~= dt@.skip(n as int));
    Some(s)
}

/// The value of a literal.
pub open spec fn literal_value(
    num: Replies,
    lex: Seq<char>,
    datatype: Option<Seq<char>>,
    lang: Option<Seq<char>>,
) -> Val {
    match lang {
        Some(l) => Val::Lang(lex, l),
        None => match datatype {
            None => Val::Str(lex),
            Some(dt) => match xsd_name(dt) {
                Some(name) => if name == "string"@ {
                    Val::Str(lex)
                } else if name == "boolean"@ {
                    Val::Bool(lex == "true"@ || lex == "1"@)
                } else if numeric_name(name) {
                    match number_in(num(NumberCallView::Parse(lex))) {
                        Some(n) => Val::Num(n),
                        None => Val::Typed(lex, dt),
                    }
                } else {
                    Val::Typed(lex, dt)
                },
                None => Val::Typed(lex, dt),
            },
        },
    }
}

/// The value of a literal.
pub fn classify<F: Fn(NumberCall) -> NumberReply>(
    numbers: &F,
    lex: &str,
    datatype: &Option<String>,
    lang: &Option<String>,
) -> (r: Value)
    requires
        numbers_ok(*numbers),
    ensures
        r@ == literal_value(replies(*numbers), lex@, opt_text(*datatype), opt_text(*lang)),
{
    let text: String = owned(lex);
    if let Some(l) = lang {
        return Value::Lang(text, l.clone());
    }
    match datatype {
        None => Value::Str(text),
        Some(dt) => match strip_xsd(dt.as_str()) {
            Some(name) => {
                if same_text(name.as_str(), "string") {
                    Value::Str(text)
                } else if same_text(name.as_str(), "boolean") {
                    Value::Bool(same_text(lex, "true") || same_text(lex, "1"))
                } else if is_numeric_name(name.as_str()) {
                    match ask_number(numbers, NumberCall::Parse(owned(lex))) {
                        Some(n) => Value::Num(n),
                        None => Value::Typed(text, dt.clone()),
                    }
                } else {
                    Value::Typed(text, dt.clone())
                }
            },
            None => Value::Typed(text, dt.clone()),
        },
    }
}

/// The value of a term.
pub open spec fn known_value(num: Replies, value: Seq<char>, kind: TermKind) -> Val {
    match kind {
        TermKind::Iri => Val::Iri(value),
        TermKind::BlankNode => Val::Blank(value),
        TermKind::Literal { datatype, lang } => literal_value(num, value, datatype, lang),
    }
}

pub fn term_value<F: Fn(NumberCall) -> NumberReply>(numbers: &F, value: &str, kind: &TermType) -> (r:
    Value)
    requires
        numbers_ok(*numbers),
    ensures
        r@ == known_value(replies(*numbers), value@, kind@),
{
    match kind {
        TermType::Iri => Value::Iri(owned(value)),
        TermType::BlankNode => Value::Blank(owned(value)),
        TermType::Literal { datatype, lang } => classify(numbers, value, datatype, lang),
    }
}

/// The value of an identifier.
pub open spec fn id_value(num: Replies, keys: Seq<Seq<char>>, id: u32) -> Option<Val> {
    if id < keys.len() {
        Some(known_value(num, key_value(keys[id as int]), key_kind(keys[id as int])))
    } else {
        None
    }
}

pub fn term_to_value<F: Fn(NumberCall) -> NumberReply>(numbers: &F, dict: &Dictionary, id: u32) -> (r:
    Option<Value>)
    requires
        numbers_ok(*numbers),
        dict.wf(),
    ensures
        opt_val(r) == id_value(replies(*numbers), dict.keys(), id),
{
    match (dict.resolve(id), dict.resolve_type(id)) {
        (Some(v), Some(t)) => Some(term_value(numbers, v.as_str(), &t)),
        _ => None,
    }
}

/// The number of a value, if it has one.
pub open spec fn val_number(v: Val) -> Option<u64> {
    match v {
        Val::Num(n) => Some(n),
        Val::Bool(b) => Some(flag_number(b)),
        _ => None,
    }
}

pub fn as_num(v: &Value) -> (r: Option<u64>)
    ensures
        r == val_number(v@),
{
    match v {
        Value::Num(n) => Some(*n),
        Value::Bool(b) => Some(if *b {
            ONE_BITS
        } else {
            0
        }),
        _ => None,
    }
}

/// The text of a value, if it is a text or an IRI.
pub open spec fn val_text(v: Val) -> Option<Seq<char>> {
    match v {
        Val::Str(s) => Some(s),
        Val::Lang(s, _) => Some(s),
        Val::Typed(s, _) => Some(s),
        Val::Iri(s) => Some(s),
        _ => None,
    }
}

pub fn as_str(v: &Value) -> (r: Option<&str>)
    ensures
        match r {
            Some(s) => val_text(v@) == Some(s@),
            None => val_text(v@) is None,
        },
{
    match v {
        Value::Str(s) => Some(s.as_str()),
        Value::Lang(s, _) => Some(s.as_str()),
        Value::Typed(s, _) => Some(s.as_str()),
        Value::Iri(s) => Some(s.as_str()),
        _ => None,
    }
}

/// Whether two values are equal; nothing if they cannot be compared.
pub open spec fn vals_equal(a: Val, b: Val) -> Option<bool> {
    match (val_number(a), val_number(b)) {
        (Some(x), Some(y)) => Some(number_equal(x, y)),
        _ => match (a, b) {
            (Val::Iri(x), Val::Iri(y)) => Some(x == y),
            (Val::Blank(x), Val::Blank(y)) => Some(x == y),
            (Val::Str(x), Val::Str(y)) => Some(x == y),
            (Val::Lang(x, lx), Val::Lang(y, ly)) => Some(x == y && lx == ly),
            (Val::Typed(x, dx), Val::Typed(y, dy)) => Some(x == y && dx == dy),
            _ => None,
        },
    }
}

pub fn values_equal(a: &Value, b: &Value) -> (r: Option<bool>)
    ensures
        r == vals_equal(a@, b@),
{
    if let (Some(x), Some(y)) = (as_num(a), as_num(b)) {
        return Some(numbers_equal(x, y));
    }
    match (a, b) {
        (Value::Iri(x), Value::Iri(y)) => Some(same_text(x.as_str(), y.as_str())),
        (Value::Blank(x), Value::Blank(y)) => Some(same_text(x.as_str(), y.as_str())),
        (Value::Str(x), Value::Str(y)) => Some(same_text(x.as_str(), y.as_str())),
        (Value::Lang(x, lx), Value::Lang(y, ly)) => Some(
            same_text(x.as_str(), y.as_str()) && same_text(lx.as_str(), ly.as_str()),
        ),
        (Value::Typed(x, dx), Value::Typed(y, dy)) => Some(
            same_text(x.as_str(), y.as_str()) && same_text(dx.as_str(), dy.as_str()),
        ),
        _ => None,
    }
}

/// How two values stand to each other; nothing if they cannot be compared.
pub open spec fn vals_side(a: Val, b: Val) -> Option<Side> {
    match (val_number(a), val_number(b)) {
        (Some(x), Some(y)) => number_side(x, y),
        _ => match (a, b) {
            (Val::Str(x), Val::Str(y)) => Some(text_side(x, y)),
            (Val::Lang(x, _), Val::Lang(y, _)) => Some(text_side(x, y)),
            (Val::Iri(x), Val::Iri(y)) => Some(text_side(x, y)),
            (Val::Blank(x), Val::Blank(y)) => Some(text_side(x, y)),
            (Val::Typed(x, dx), Val::Typed(y, dy)) => if dx == dy {
                Some(text_side(x, y))
            } else {
                None
            },
            _ => None,
        },
    }
}

pub fn compare_values(a: &Value, b: &Value) -> (r: Option<Side>)
    ensures
        r == vals_side(a@, b@),
{
    if let (Some(x), Some(y)) = (as_num(a), as_num(b)) {
        return compare_numbers(x, y);
    }
    match (a, b) {
        (Value::Str(x), Value::Str(y)) => Some(compare_text(x.as_str(), y.as_str())),
        (Value::Lang(x, _), Value::Lang(y, _)) => Some(compare_text(x.as_str(), y.as_str())),
        (Value::Iri(x), Value::Iri(y)) => Some(compare_text(x.as_str(), y.as_str())),
        (Value::Blank(x), Value::Blank(y)) => Some(compare_text(x.as_str(), y.as_str())),
        (Value::Typed(x, dx), Value::Typed(y, dy)) => {
            if same_text(dx.as_str(), dy.as_str()) {
                Some(compare_text(x.as_str(), y.as_str()))
            } else {
                None
            }
        },
        _ => None,
    }
}

/// Comparison is antisymmetric: swapping the operands swaps the answer.
pub proof fn law_comparison_antisymmetric(a: Val, b: Val)
    ensures
        vals_side(a, b) == Some(Side::Before) <==> vals_side(b, a) == Some(Side::After),
        vals_side(a, b) == Some(Side::Same) <==> vals_side(b, a) == Some(Side::Same),
        vals_side(a, b) is None <==> vals_side(b, a) is None,
        vals_equal(a, b) == vals_equal(b, a),
{
    match (a, b) {
        (Val::Str(x), Val::Str(y)) => {
            crate::text::lemma_text_side(x, y);
        },
        (Val::Lang(x, _), Val::Lang(y, _)) => {
            crate::text::lemma_text_side(x, y);
        },
        (Val::Iri(x), Val::Iri(y)) => {
            crate::text::lemma_text_side(x, y);
        },
        (Val::Blank(x), Val::Blank(y)) => {
            crate::text::lemma_text_side(x, y);
        },
        (Val::Typed(x, _), Val::Typed(y, _)) => {
            crate::text::lemma_text_side(x, y);
        },
        _ => {},
    }
}

/// The truth of a value; nothing for values that have none.
pub open spec fn truth(v: Val) -> Option<bool> {
    match v {
        Val::Bool(b) => Some(b),
        Val::Num(n) => Some(
            !crate::sparql::numbers::is_zero(n) && !crate::sparql::numbers::is_nan(n),
        ),
        Val::Str(s) => Some(s.len() > 0),
        _ => None,
    }
}

pub fn truth_of(v: &Value) -> (r: Option<bool>)
    ensures
        r == truth(v@),
{
    match v {
        Value::Bool(b) => Some(*b),
        Value::Num(n) => {
            let m: u64 = crate::sparql::numbers::bits_magnitude(*n);
            Some(m != 0 && m <= crate::sparql::numbers::INFINITY_BITS)
        },
        Value::Str(s) => Some(crate::text::text_len(s.as_str()) > 0),
        _ => None,
    }
}

/// The identity of a term: its text and its type, where plain literals and
/// those of the string datatype are the same.
#[verifier::ext_equal]
pub enum TermId {
    Iri(Seq<char>),
    Blank(Seq<char>),
    Literal(Seq<char>, Option<Seq<char>>, Option<Seq<char>>),
}

pub open spec fn term_id(value: Seq<char>, kind: TermKind) -> TermId {
    match kind {
        TermKind::Iri => TermId::Iri(value),
        TermKind::BlankNode => TermId::Blank(value),
        TermKind::Literal { datatype, lang } => TermId::Literal(
            value,
            if datatype == Some(crate::hypertrie::dictionary::xsd_string()) {
                None
            } else {
                datatype
            },
            lang,
        ),
    }
}

/// Whether two optional texts are the same.
fn same_option(a: &Option<String>, b: &Option<String>) -> (r: bool)
    ensures
        r == (opt_text(*a) == opt_text(*b)),
{
    match (a, b) {
        (Some(x), Some(y)) => same_text(x.as_str(), y.as_str()),
        (None, None) => true,
        _ => false,
    }
}

/// Whether a datatype is the one of plain texts.
fn is_string_type(d: &Option<String>) -> (r: bool)
    ensures
        r == (opt_text(*d) == Some(crate::hypertrie::dictionary::xsd_string())),
{
    match d {
        Some(x) => same_text(x.as_str(), "http://www.w3.org/2001/XMLSchema#string"),
        None => false,
    }
}

/// Whether two terms are the same term.
pub fn same_term(v1: &str, k1: &TermType, v2: &str, k2: &TermType) -> (r: bool)
    ensures
        r == (term_id(v1@, k1@) == term_id(v2@, k2@)),
{
    let same_value: bool = same_text(v1, v2);
    match (k1, k2) {
        (TermType::Iri, TermType::Iri) => same_value,
        (TermType::BlankNode, TermType::BlankNode) => same_value,
        (
            TermType::Literal { datatype: d1, lang: l1 },
            TermType::Literal { datatype: d2, lang: l2 },
        ) => {
            let s1: bool = is_string_type(d1) || d1.is_none();
            let s2: bool = is_string_type(d2) || d2.is_none();
            let same_type: bool = if s1 || s2 {
                s1 && s2
            } else {
                same_option(d1, d2)
            };
            same_value && same_type && same_option(l1, l2)
        },
        _ => false,
    }
}

} // verus!
