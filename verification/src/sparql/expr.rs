//! Evaluation of expressions.
//!
//! An expression has a value or is an error. Errors spread, except where the
//! other operand of a logical operation decides.

use crate::bytes::Side;
use crate::hypertrie::dictionary::{key_kind, key_value, Dictionary, TermType};
use crate::hypertrie::executor::{place, place_from};
use crate::hypertrie::NULL_ID;
use crate::sparql::algebra::{exprs_view, texts, BinaryOp, Expr, ExprView, Function, UnaryOp};
use crate::sparql::numbers::{
    ask_number, ask_text, negate, negated, number_in, numbers_ok, replies, text_in, NumberCall,
    NumberCallView, NumberReply, Replies,
};
use crate::sparql::values::{
    as_num, as_str, compare_values, id_value, known_value, opt_val, same_term, term_id,
    term_to_value, term_value, truth, truth_of, val_number, val_text, vals_equal, vals_side,
    values_equal, TermId, Val, Value,
};
use crate::text::{
    contains_text, ends_with_text, has_part, has_prefix, has_suffix, lowercase, owned, same_text,
    starts_with_text, text_len, to_lower, to_upper, uppercase,
};
use regex::RegexBuilder;
use vstd::prelude::*;

verus! {

/// What an expression is evaluated against: the number function, the
/// dictionary, and one row with the names of its columns.
pub struct Scope {
    pub num: Replies,
    pub keys: Seq<Seq<char>>,
    pub vars: Seq<Seq<char>>,
    pub row: Seq<u32>,
}

/// The identifier of a variable; nothing if there is no such column or it is
/// unbound.
pub open spec fn bound_id(c: Scope, name: Seq<char>) -> Option<u32> {
    let i = place(c.vars, name);
    if 0 <= i < c.vars.len() && i < c.row.len() && c.row[i] != NULL_ID {
        Some(c.row[i])
    } else {
        None
    }
}

/// The term that an expression names, if it names one.
pub open spec fn named_term(e: ExprView, c: Scope) -> Option<TermId> {
    match e {
        ExprView::Known(v, k) => Some(term_id(v, k)),
        ExprView::Variable(n) => match bound_id(c, n) {
            Some(id) => if id < c.keys.len() {
                Some(term_id(key_value(c.keys[id as int]), key_kind(c.keys[id as int])))
            } else {
                None
            },
            None => None,
        },
        _ => None,
    }
}

/// Three-valued disjunction: a true operand decides, even against an error.
pub open spec fn either(a: Option<bool>, b: Option<bool>) -> Option<bool> {
    if a == Some(true) || b == Some(true) {
        Some(true)
    } else if a is None || b is None {
        None
    } else {
        Some(false)
    }
}

/// Three-valued conjunction: a false operand decides, even against an error.
pub open spec fn both(a: Option<bool>, b: Option<bool>) -> Option<bool> {
    if a == Some(false) || b == Some(false) {
        Some(false)
    } else if a is None || b is None {
        None
    } else {
        Some(true)
    }
}

/// The logical operations are symmetric, and each is the other seen through
/// negation.
pub proof fn law_three_valued_logic(a: Option<bool>, b: Option<bool>)
    ensures
        either(a, b) == either(b, a),
        both(a, b) == both(b, a),
        both(a, b) == opt_not(either(opt_not(a), opt_not(b))),
        either(a, b) == opt_not(both(opt_not(a), opt_not(b))),
        either(a, Some(false)) == a,
        both(a, Some(true)) == a,
{
}

pub open spec fn opt_not(a: Option<bool>) -> Option<bool> {
    match a {
        Some(b) => Some(!b),
        None => None,
    }
}

pub open spec fn opt_bool(b: Option<bool>) -> Option<Val> {
    match b {
        Some(x) => Some(Val::Bool(x)),
        None => None,
    }
}

pub open spec fn opt_truth(v: Option<Val>) -> Option<bool> {
    match v {
        Some(x) => truth(x),
        None => None,
    }
}

/// Whether a comparison holds.
pub open spec fn compared(op: BinaryOp, side: Side) -> bool {
    match op {
        BinaryOp::Greater => side == Side::After,
        BinaryOp::GreaterOrEqual => side != Side::Before,
        BinaryOp::Less => side == Side::Before,
        _ => side != Side::After,
    }
}

/// The question behind an arithmetic operation.
pub open spec fn arithmetic(op: BinaryOp, x: u64, y: u64) -> NumberCallView {
    match op {
        BinaryOp::Plus => NumberCallView::Plus(x, y),
        BinaryOp::Minus => NumberCallView::Minus(x, y),
        BinaryOp::Times => NumberCallView::Times(x, y),
        _ => NumberCallView::Divide(x, y),
    }
}

pub open spec fn is_comparison(op: BinaryOp) -> bool {
    op == BinaryOp::Greater || op == BinaryOp::GreaterOrEqual || op == BinaryOp::Less || op
        == BinaryOp::LessOrEqual
}

/// The value of an operation on two values.
pub open spec fn combined(num: Replies, op: BinaryOp, x: Val, y: Val) -> Option<Val> {
    if op == BinaryOp::Equal {
        opt_bool(vals_equal(x, y))
    } else if is_comparison(op) {
        match vals_side(x, y) {
            Some(side) => Some(Val::Bool(compared(op, side))),
            None => None,
        }
    } else {
        match (val_number(x), val_number(y)) {
            (Some(a), Some(b)) => if op == BinaryOp::Divide && crate::sparql::numbers::is_zero(b) {
                None
            } else {
                match number_in(num(arithmetic(op, a, b))) {
                    Some(n) => Some(Val::Num(n)),
                    None => None,
                }
            },
            _ => None,
        }
    }
}

/// The value of an expression; nothing if it is an error.
pub open spec fn ev(e: ExprView, c: Scope) -> Option<Val>
    decreases e, 0nat, 0nat,
{
    match e {
        ExprView::Known(v, k) => Some(known_value(c.num, v, k)),
        ExprView::Variable(n) => match bound_id(c, n) {
            Some(id) => id_value(c.num, c.keys, id),
            None => None,
        },
        ExprView::Binary(op, a, b) => if op == BinaryOp::Or {
            opt_bool(either(opt_truth(ev(*a, c)), opt_truth(ev(*b, c))))
        } else if op == BinaryOp::And {
            opt_bool(both(opt_truth(ev(*a, c)), opt_truth(ev(*b, c))))
        } else if op == BinaryOp::SameTerm {
            match (named_term(*a, c), named_term(*b, c)) {
                (Some(x), Some(y)) => Some(Val::Bool(x == y)),
                _ => None,
            }
        } else {
            match (ev(*a, c), ev(*b, c)) {
                (Some(x), Some(y)) => combined(c.num, op, x, y),
                _ => None,
            }
        },
        ExprView::Unary(op, a) => match op {
            UnaryOp::Not => opt_bool(opt_not(opt_truth(ev(*a, c)))),
            UnaryOp::Plus => match ev(*a, c) {
                Some(x) => match val_number(x) {
                    Some(n) => Some(Val::Num(n)),
                    None => None,
                },
                None => None,
            },
            UnaryOp::Minus => match ev(*a, c) {
                Some(x) => match val_number(x) {
                    Some(n) => Some(Val::Num(negated(n))),
                    None => None,
                },
                None => None,
            },
        },
        ExprView::Bound(n) => Some(Val::Bool(bound_id(c, n) is Some)),
        ExprView::In(x, list) => match ev(*x, c) {
            Some(v) => Some(Val::Bool(listed(v, list, 0, c))),
            None => None,
        },
        ExprView::If(t, a, b) => match opt_truth(ev(*t, c)) {
            Some(true) => ev(*a, c),
            Some(false) => ev(*b, c),
            None => None,
        },
        ExprView::Call(f, args) => called(
            c.num,
            f,
            if args.len() > 0 {
                ev(args[0], c)
            } else {
                None
            },
            if args.len() > 1 {
                ev(args[1], c)
            } else {
                None
            },
            args.len() > 2,
            if args.len() > 2 {
                ev(args[2], c)
            } else {
                None
            },
        ),
        ExprView::Unsupported(_) => None,
    }
}

/// Whether a value equals one of a list, from item `i` on. Items that are
/// errors do not count.
pub open spec fn listed(v: Val, list: Seq<ExprView>, i: int, c: Scope) -> bool
    decreases list, 1nat, list.len() - i,
{
    if i < 0 || i >= list.len() {
        false
    } else {
        (match ev(list[i], c) {
            Some(y) => vals_equal(v, y) == Some(true),
            None => false,
        }) || listed(v, list, i + 1, c)
    }
}

/// The text of a value of any kind.
pub open spec fn str_of(num: Replies, v: Val) -> Seq<char> {
    match v {
        Val::Iri(s) => s,
        Val::Blank(s) => s,
        Val::Str(s) => s,
        Val::Lang(s, _) => s,
        Val::Typed(s, _) => s,
        Val::Num(n) => text_in(num(NumberCallView::Text(n))),
        Val::Bool(b) => bool_text(b),
    }
}

pub open spec fn bool_text(b: bool) -> Seq<char> {
    if b {
        "true"@
    } else {
        "false"@
    }
}

/// The datatype of a literal; nothing for other terms.
pub open spec fn datatype_of(v: Val) -> Option<Seq<char>> {
    match v {
        Val::Num(_) => Some("http://www.w3.org/2001/XMLSchema#double"@),
        Val::Bool(_) => Some("http://www.w3.org/2001/XMLSchema#boolean"@),
        Val::Str(_) => Some("http://www.w3.org/2001/XMLSchema#string"@),
        Val::Lang(_, _) => Some("http://www.w3.org/1999/02/22-rdf-syntax-ns#langString"@),
        Val::Typed(_, d) => Some(d),
        Val::Iri(_) => None,
        Val::Blank(_) => None,
    }
}

/// The text of a value that must be one.
pub open spec fn opt_val_text(v: Option<Val>) -> Option<Seq<char>> {
    match v {
        Some(x) => val_text(x),
        None => None,
    }
}

/// The value of a function on the values of its arguments.
pub open spec fn called(
    num: Replies,
    f: Function,
    a: Option<Val>,
    b: Option<Val>,
    flagged: bool,
    flags: Option<Val>,
) -> Option<Val> {
    match f {
        Function::Str => match a {
            Some(v) => Some(Val::Str(str_of(num, v))),
            None => None,
        },
        Function::Lang => match a {
            Some(Val::Lang(_, l)) => Some(Val::Str(l)),
            Some(_) => Some(Val::Str(Seq::empty())),
            None => None,
        },
        Function::Datatype => match a {
            Some(v) => match datatype_of(v) {
                Some(d) => Some(Val::Iri(d)),
                None => None,
            },
            None => None,
        },
        Function::StrLen => match opt_val_text(a) {
            Some(s) => match number_in(num(NumberCallView::Count(s.len() as u64))) {
                Some(n) => Some(Val::Num(n)),
                None => None,
            },
            None => None,
        },
        Function::UCase => match opt_val_text(a) {
            Some(s) => Some(Val::Str(uppercase(s))),
            None => None,
        },
        Function::LCase => match opt_val_text(a) {
            Some(s) => Some(Val::Str(lowercase(s))),
            None => None,
        },
        Function::Contains => match (opt_val_text(a), opt_val_text(b)) {
            (Some(s), Some(t)) => Some(Val::Bool(has_part(s, t))),
            _ => None,
        },
        Function::StrStarts => match (opt_val_text(a), opt_val_text(b)) {
            (Some(s), Some(t)) => Some(Val::Bool(has_prefix(s, t))),
            _ => None,
        },
        Function::StrEnds => match (opt_val_text(a), opt_val_text(b)) {
            (Some(s), Some(t)) => Some(Val::Bool(has_suffix(s, t))),
            _ => None,
        },
        Function::IsIri => match a {
            Some(v) => Some(Val::Bool(v is Iri)),
            None => None,
        },
        Function::IsBlank => match a {
            Some(v) => Some(Val::Bool(v is Blank)),
            None => None,
        },
        Function::IsLiteral => match a {
            Some(v) => Some(Val::Bool(!(v is Iri) && !(v is Blank))),
            None => None,
        },
        Function::IsNumeric => match a {
            Some(v) => Some(Val::Bool(v is Num)),
            None => None,
        },
        Function::Regex => match (opt_val_text(a), opt_val_text(b)) {
            (Some(s), Some(p)) => if flagged {
                match opt_val_text(flags) {
                    Some(fl) => opt_bool(matched(p, fl, s)),
                    None => None,
                }
            } else {
                opt_bool(matched(p, Seq::empty(), s))
            },
            _ => None,
        },
    }
}

/// Whether a text matches a pattern; nothing for unknown flags or a pattern
/// that does not compile.
pub open spec fn matched(pattern: Seq<char>, flags: Seq<char>, text: Seq<char>) -> Option<bool> {
    if forall|i: int| 0 <= i < flags.len() ==> known_flag(#[trigger] flags[i]) {
        regex_result(
            pattern,
            flags.contains('i'),
            flags.contains('s'),
            flags.contains('m'),
            text,
        )
    } else {
        None
    }
}

pub open spec fn known_flag(c: char) -> bool {
    c == 'i' || c == 's' || c == 'm'
}

/// What a search with the `regex` crate finds: whether the pattern, compiled
/// without regard to case, with a dot that matches newlines, and in multi-line
/// mode as asked, occurs in the text. Nothing if it does not compile.
pub uninterp spec fn regex_result(
    pattern: Seq<char>,
    no_case: bool,
    dot_all: bool,
    lines: bool,
    text: Seq<char>,
) -> Option<bool>;

/// `RegexBuilder::new`, its three switches, `build`, and `Regex::is_match`: the
/// answer depends on the pattern, the switches and the text alone.
#[verifier::external_body]
fn regex_match(pattern: &str, no_case: bool, dot_all: bool, lines: bool, text: &str) -> (r: Option<bool>)
    ensures
        r == regex_result(pattern@, no_case, dot_all, lines, text@),
{
    RegexBuilder::new(pattern)
        .case_insensitive(no_case)
        .dot_matches_new_line(dot_all)
        .multi_line(lines)
        .build()
        .ok()
        .map(|re| re.is_match(text))
}

/// Whether a text matches a pattern under the given flags.
pub fn match_regex(pattern: &str, flags: &str, text: &str) -> (r: Option<bool>)
    ensures
        r == matched(pattern@, flags@, text@),
{
    let cs: Vec<char> = crate::text::chars_of(flags);
    let mut no_case: bool = false;
    let mut dot_all: bool = false;
    let mut lines: bool = false;
    let mut i: usize = 0;
    while i < cs.len()
        invariant
            i <= cs@.len(),
            cs@ == flags@,
            forall|k: int| 0 <= k < i ==> known_flag(#[trigger] cs@[k]),
            no_case == cs@.take(i as int).contains('i'),
            dot_all == cs@.take(i as int).contains('s'),
            lines == cs@.take(i as int).contains('m'),
        decreases cs@.len() - i,
    {
        let c: char = cs[i];
        proof {
            lemma_take_contains(cs@, i as int, 'i');
            lemma_take_contains(cs@, i as int, 's');
            lemma_take_contains(cs@, i as int, 'm');
        }
        if c == 'i' {
            no_case = true;
        } else if c == 's' {
            dot_all = true;
        } else if c == 'm' {
            lines = true;
        } else {
            assert(!known_flag(cs@[i as int]));
            return None;
        }
        i += 1;
    }
    assert(cs@.take(i as int) =~= cs@);
    regex_match(pattern, no_case, dot_all, lines, text)
}

proof fn lemma_take_contains(s: Seq<char>, i: int, c: char)
    requires
        0 <= i < s.len(),
    ensures
        s.take(i + 1).contains(c) <==> s.take(i).contains(c) || s[i] == c,
{
    let a = s.take(i);
    let b = s.take(i + 1);
    if a.contains(c) {
        let k = choose|k: int| 0 <= k < a.len() && a[k] == c;
        assert(b[k] == c);
    }
    if s[i] == c {
        assert(b[i] == c);
    }
    if b.contains(c) {
        let k = choose|k: int| 0 <= k < b.len() && b[k] == c;
        if k < i {
            assert(a[k] == c);
        }
    }
}

// --- Evaluation ----------------------------------------------------------------------

/// The scope of a row.
pub open spec fn scope_of<F: Fn(NumberCall) -> NumberReply>(
    row: Seq<u32>,
    vars: Seq<String>,
    dict: Dictionary,
    numbers: F,
) -> Scope {
    Scope { num: replies(numbers), keys: dict.keys(), vars: texts(vars), row }
}

/// The column of a variable, or the number of columns.
pub fn column_of(vars: &Vec<String>, name: &str) -> (i: usize)
    ensures
        i == place(texts(vars@), name@),
        i <= vars@.len(),
{
    let ghost ns = texts(vars@);
    let mut i: usize = 0;
    while i < vars.len()
        invariant
            ns == texts(vars@),
            i <= vars@.len(),
            place(ns, name@) == place_from(ns, name@, i as int),
        decreases vars@.len() - i,
    {
        if same_text(vars[i].as_str(), name) {
            assert(ns[i as int] == name@);
            return i;
        }
        assert(ns[i as int] != name@);
        i += 1;
    }
    i
}

/// The identifier of a variable, if it is bound.
pub fn find_bound<F: Fn(NumberCall) -> NumberReply>(
    name: &str,
    row: &[u32],
    vars: &Vec<String>,
    dict: &Dictionary,
    numbers: &F,
) -> (r: Option<u32>)
    requires
        row@.len() == vars@.len(),
    ensures
        r == bound_id(scope_of(row@, vars@, *dict, *numbers), name@),
{
    let i: usize = column_of(vars, name);
    if i < vars.len() && row[i] != NULL_ID {
        Some(row[i])
    } else {
        None
    }
}

/// The text and type of the term that an expression names.
fn find_named<F: Fn(NumberCall) -> NumberReply>(
    e: &Expr,
    row: &[u32],
    vars: &Vec<String>,
    dict: &Dictionary,
    numbers: &F,
) -> (r: Option<(String, TermType)>)
    requires
        row@.len() == vars@.len(),
        dict.wf(),
    ensures
        match r {
            Some((v, k)) => named_term(e.view(), scope_of(row@, vars@, *dict, *numbers)) == Some(
                term_id(v@, k@),
            ),
            None => named_term(e.view(), scope_of(row@, vars@, *dict, *numbers)) is None,
        },
{
    match e {
        Expr::Known(v, k) => Some((v.clone(), k.clone())),
        Expr::Variable(n) => match find_bound(n.as_str(), row, vars, dict, numbers) {
            Some(id) => match (dict.resolve(id), dict.resolve_type(id)) {
                (Some(v), Some(t)) => Some((v, t)),
                _ => None,
            },
            None => None,
        },
        _ => None,
    }
}

fn opt_num(v: Option<u64>) -> (r: Option<Value>)
    ensures
        opt_val(r) == (match v {
            Some(n) => Some(Val::Num(n)),
            None => None,
        }),
{
    match v {
        Some(n) => Some(Value::Num(n)),
        None => None,
    }
}

/// The value of an operation on two values.
fn combine<F: Fn(NumberCall) -> NumberReply>(numbers: &F, op: BinaryOp, x: &Value, y: &Value) -> (r:
    Option<Value>)
    requires
        numbers_ok(*numbers),
    ensures
        opt_val(r) == combined(replies(*numbers), op, x@, y@),
{
    if op == BinaryOp::Equal {
        return match values_equal(x, y) {
            Some(b) => Some(Value::Bool(b)),
            None => None,
        };
    }
    if op == BinaryOp::Greater || op == BinaryOp::GreaterOrEqual || op == BinaryOp::Less || op
        == BinaryOp::LessOrEqual {
        return match compare_values(x, y) {
            Some(side) => {
                let holds: bool = match op {
                    BinaryOp::Greater => side == Side::After,
                    BinaryOp::GreaterOrEqual => side != Side::Before,
                    BinaryOp::Less => side == Side::Before,
                    _ => side != Side::After,
                };
                Some(Value::Bool(holds))
            },
            None => None,
        };
    }
    match (as_num(x), as_num(y)) {
        (Some(a), Some(b)) => {
            if op == BinaryOp::Divide && crate::sparql::numbers::bits_magnitude(b) == 0 {
                return None;
            }
            let call: NumberCall = match op {
                BinaryOp::Plus => NumberCall::Plus(a, b),
                BinaryOp::Minus => NumberCall::Minus(a, b),
                BinaryOp::Times => NumberCall::Times(a, b),
                _ => NumberCall::Divide(a, b),
            };
            opt_num(ask_number(numbers, call))
        },
        _ => None,
    }
}

/// The truth of an expression; nothing if it is an error.
pub fn ebv<F: Fn(NumberCall) -> NumberReply>(
    e: &Expr,
    row: &[u32],
    vars: &Vec<String>,
    dict: &Dictionary,
    numbers: &F,
) -> (r: Option<bool>)
    requires
        numbers_ok(*numbers),
        dict.wf(),
        row@.len() == vars@.len(),
    ensures
        r == opt_truth(ev(e.view(), scope_of(row@, vars@, *dict, *numbers))),
    decreases e, 1nat, 0nat,
{
    match eval(e, row, vars, dict, numbers) {
        Some(v) => truth_of(&v),
        None => None,
    }
}

/// The value of an expression; nothing if it is an error.
pub fn eval<F: Fn(NumberCall) -> NumberReply>(
    e: &Expr,
    row: &[u32],
    vars: &Vec<String>,
    dict: &Dictionary,
    numbers: &F,
) -> (r: Option<Value>)
    requires
        numbers_ok(*numbers),
        dict.wf(),
        row@.len() == vars@.len(),
    ensures
        opt_val(r) == ev(e.view(), scope_of(row@, vars@, *dict, *numbers)),
    decreases e, 0nat, 0nat,
{
    match e {
        Expr::Known(v, k) => Some(term_value(numbers, v.as_str(), k)),
        Expr::Variable(n) => match find_bound(n.as_str(), row, vars, dict, numbers) {
            Some(id) => term_to_value(numbers, dict, id),
            None => None,
        },
        Expr::Binary(op, a, b) => {
            if *op == BinaryOp::Or {
                let x: Option<bool> = ebv(a, row, vars, dict, numbers);
                if let Some(true) = x {
                    return Some(Value::Bool(true));
                }
                match (x, ebv(b, row, vars, dict, numbers)) {
                    (_, Some(true)) => Some(Value::Bool(true)),
                    (Some(_), Some(_)) => Some(Value::Bool(false)),
                    _ => None,
                }
            } else if *op == BinaryOp::And {
                let x: Option<bool> = ebv(a, row, vars, dict, numbers);
                if let Some(false) = x {
                    return Some(Value::Bool(false));
                }
                match (x, ebv(b, row, vars, dict, numbers)) {
                    (_, Some(false)) => Some(Value::Bool(false)),
                    (Some(_), Some(_)) => Some(Value::Bool(true)),
                    _ => None,
                }
            } else if *op == BinaryOp::SameTerm {
                match (
                    find_named(a, row, vars, dict, numbers),
                    find_named(b, row, vars, dict, numbers),
                ) {
                    (Some((v1, k1)), Some((v2, k2))) => Some(
                        Value::Bool(same_term(v1.as_str(), &k1, v2.as_str(), &k2)),
                    ),
                    _ => None,
                }
            } else {
                match (eval(a, row, vars, dict, numbers), eval(b, row, vars, dict, numbers)) {
                    (Some(x), Some(y)) => combine(numbers, *op, &x, &y),
                    _ => None,
                }
            }
        },
        Expr::Unary(op, a) => match op {
            UnaryOp::Not => match ebv(a, row, vars, dict, numbers) {
                Some(b) => Some(Value::Bool(!b)),
                None => None,
            },
            UnaryOp::Plus => match eval(a, row, vars, dict, numbers) {
                Some(x) => opt_num(as_num(&x)),
                None => None,
            },
            UnaryOp::Minus => match eval(a, row, vars, dict, numbers) {
                Some(x) => match as_num(&x) {
                    Some(n) => Some(Value::Num(negate(n))),
                    None => None,
                },
                None => None,
            },
        },
        Expr::Bound(n) => {
            let id: Option<u32> = find_bound(n.as_str(), row, vars, dict, numbers);
            Some(Value::Bool(id.is_some()))
        },
        Expr::In(x, list) => match eval(x, row, vars, dict, numbers) {
            Some(v) => {
                let ghost c = scope_of(row@, vars@, *dict, *numbers);
                let ghost es = exprs_view(list@);
                proof {
                    assert(e.view()->In_1 =~= es);
                }
                let found: bool = in_list(&v, list, row, vars, dict, numbers);
                Some(Value::Bool(found))
            },
            None => None,
        },
        Expr::If(t, a, b) => match ebv(t, row, vars, dict, numbers) {
            Some(true) => eval(a, row, vars, dict, numbers),
            Some(false) => eval(b, row, vars, dict, numbers),
            None => None,
        },
        Expr::Call(f, args) => {
            proof {
                assert(e.view()->Call_1 =~= exprs_view(args@));
            }
            let n: usize = args.len();
            let a: Option<Value> = if n > 0 {
                assert(exprs_view(args@)[0] == args@[0].view());
                eval(&args[0], row, vars, dict, numbers)
            } else {
                None
            };
            let b: Option<Value> = if n > 1 {
                assert(exprs_view(args@)[1] == args@[1].view());
                eval(&args[1], row, vars, dict, numbers)
            } else {
                None
            };
            let flags: Option<Value> = if n > 2 {
                assert(exprs_view(args@)[2] == args@[2].view());
                eval(&args[2], row, vars, dict, numbers)
            } else {
                None
            };
            eval_func(numbers, *f, a, b, n > 2, flags)
        },
        Expr::Unsupported(_) => None,
    }
}

/// Whether a value equals one of the listed ones.
fn in_list<F: Fn(NumberCall) -> NumberReply>(
    v: &Value,
    list: &Vec<Expr>,
    row: &[u32],
    vars: &Vec<String>,
    dict: &Dictionary,
    numbers: &F,
) -> (r: bool)
    requires
        numbers_ok(*numbers),
        dict.wf(),
        row@.len() == vars@.len(),
    ensures
        r == listed(v@, exprs_view(list@), 0, scope_of(row@, vars@, *dict, *numbers)),
    decreases list, 2nat, 0nat,
{
    let ghost c = scope_of(row@, vars@, *dict, *numbers);
    let ghost es = exprs_view(list@);
    let mut i: usize = 0;
    while i < list.len()
        invariant
            numbers_ok(*numbers),
            dict.wf(),
            row@.len() == vars@.len(),
            c == scope_of(row@, vars@, *dict, *numbers),
            es == exprs_view(list@),
            i <= list@.len(),
            listed(v@, es, 0, c) == listed(v@, es, i as int, c),
        decreases list@.len() - i,
    {
        assert(es[i as int] == list@[i as int].view());
        if let Some(y) = eval(&list[i], row, vars, dict, numbers) {
            if let Some(true) = values_equal(v, &y) {
                return true;
            }
        }
        i += 1;
    }
    false
}

/// The text of a value of any kind.
pub fn value_text<F: Fn(NumberCall) -> NumberReply>(numbers: &F, v: Value) -> (r: String)
    requires
        numbers_ok(*numbers),
    ensures
        r@ == str_of(replies(*numbers), v@),
{
    match v {
        Value::Iri(s) => s,
        Value::Blank(s) => s,
        Value::Str(s) => s,
        Value::Lang(s, _) => s,
        Value::Typed(s, _) => s,
        Value::Num(n) => ask_text(numbers, n),
        Value::Bool(b) => if b {
            owned("true")
        } else {
            owned("false")
        },
    }
}

/// The text of an optional value that must be one.
fn opt_as_str(v: &Option<Value>) -> (r: Option<&str>)
    ensures
        match r {
            Some(s) => opt_val_text(opt_val(*v)) == Some(s@),
            None => opt_val_text(opt_val(*v)) is None,
        },
{
    match v {
        Some(x) => as_str(x),
        None => None,
    }
}

/// The value of a function on the values of its arguments.
fn eval_func<F: Fn(NumberCall) -> NumberReply>(
    numbers: &F,
    f: Function,
    a: Option<Value>,
    b: Option<Value>,
    flagged: bool,
    flags: Option<Value>,
) -> (r: Option<Value>)
    requires
        numbers_ok(*numbers),
    ensures
        opt_val(r) == called(
            replies(*numbers),
            f,
            opt_val(a),
            opt_val(b),
            flagged,
            opt_val(flags),
        ),
{
    match f {
        Function::Str => match a {
            Some(v) => Some(Value::Str(value_text(numbers, v))),
            None => None,
        },
        Function::Lang => match a {
            Some(Value::Lang(_, l)) => Some(Value::Str(l)),
            Some(_) => {
                let s: String = String::new();
                assert(s@ =~= Seq::<char>::empty());
                Some(Value::Str(s))
            },
            None => None,
        },
        Function::Datatype => match a {
            Some(Value::Num(_)) => Some(Value::Iri(owned("http://www.w3.org/2001/XMLSchema#double"))),
            Some(Value::Bool(_)) => Some(
                Value::Iri(owned("http://www.w3.org/2001/XMLSchema#boolean")),
            ),
            Some(Value::Str(_)) => Some(Value::Iri(owned("http://www.w3.org/2001/XMLSchema#string"))),
            Some(Value::Lang(_, _)) => Some(
                Value::Iri(owned("http://www.w3.org/1999/02/22-rdf-syntax-ns#langString")),
            ),
            Some(Value::Typed(_, d)) => Some(Value::Iri(d)),
            _ => None,
        },
        Function::StrLen => match opt_as_str(&a) {
            Some(s) => opt_num(ask_number(numbers, NumberCall::Count(text_len(s) as u64))),
            None => None,
        },
        Function::UCase => match opt_as_str(&a) {
            Some(s) => Some(Value::Str(to_upper(s))),
            None => None,
        },
        Function::LCase => match opt_as_str(&a) {
            Some(s) => Some(Value::Str(to_lower(s))),
            None => None,
        },
        Function::Contains => match (opt_as_str(&a), opt_as_str(&b)) {
            (Some(s), Some(t)) => Some(Value::Bool(contains_text(s, t))),
            _ => None,
        },
        Function::StrStarts => match (opt_as_str(&a), opt_as_str(&b)) {
            (Some(s), Some(t)) => Some(Value::Bool(starts_with_text(s, t))),
            _ => None,
        },
        Function::StrEnds => match (opt_as_str(&a), opt_as_str(&b)) {
            (Some(s), Some(t)) => Some(Value::Bool(ends_with_text(s, t))),
            _ => None,
        },
        Function::IsIri => match a {
            Some(Value::Iri(_)) => Some(Value::Bool(true)),
            Some(_) => Some(Value::Bool(false)),
            None => None,
        },
        Function::IsBlank => match a {
            Some(Value::Blank(_)) => Some(Value::Bool(true)),
            Some(_) => Some(Value::Bool(false)),
            None => None,
        },
        Function::IsLiteral => match a {
            Some(Value::Iri(_)) => Some(Value::Bool(false)),
            Some(Value::Blank(_)) => Some(Value::Bool(false)),
            Some(_) => Some(Value::Bool(true)),
            None => None,
        },
        Function::IsNumeric => match a {
            Some(Value::Num(_)) => Some(Value::Bool(true)),
            Some(_) => Some(Value::Bool(false)),
            None => None,
        },
        Function::Regex => match (opt_as_str(&a), opt_as_str(&b)) {
            (Some(s), Some(p)) => {
                let found: Option<bool> = if flagged {
                    match opt_as_str(&flags) {
                        Some(fl) => match_regex(p, fl, s),
                        None => None,
                    }
                } else {
                    proof {
                        reveal_strlit("");
                        assert(""@ =~= Seq::<char>::empty());
                    }
                    match_regex(p, "", s)
                };
                match found {
                    Some(m) => Some(Value::Bool(m)),
                    None => None,
                }
            },
            _ => None,
        },
    }
}

} // verus!
