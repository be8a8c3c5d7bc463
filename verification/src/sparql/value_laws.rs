//! What comparisons, logic, functions and computed terms mean.

use crate::bytes::Side;
use crate::hypertrie::dictionary::{
    canonical, encodable, key_kind, key_value, law_key_round_trip, plain, tagged, term_key, typed,
    TermKind,
};
use crate::hypertrie::NULL_ID;
use crate::sparql::algebra::{BinaryOp, ExprView, Function, UnaryOp};
use crate::sparql::bind::{interned, val_term};
use crate::sparql::expr::{ev, opt_truth, regex_result, Scope};
use crate::sparql::numbers::{
    number_equal, number_side, total_rank, NumberCallView, NumberReplyView, Replies,
    INFINITY_BITS, ONE_BITS, SIGN_BIT,
};
use crate::sparql::values::{
    id_value, known_value, truth, val_number, vals_equal, vals_side, xsd, xsd_name, Val,
};
use crate::text::{
    has_part, has_prefix, has_suffix, law_text_order, lowercase, part_at, precedes, uppercase,
};
use vstd::arithmetic::power2::{lemma_pow2_adds, lemma_pow2_pos, lemma_pow2_strictly_increases, pow2};
use vstd::prelude::*;

verus! {

// --- Numbers ---------------------------------------------------------------------------

/// The bits below the exponent of a double.
pub open spec fn fraction_bits() -> int {
    0x10_0000_0000_0000
}

/// The size of a double without its sign, in units of the smallest one above zero:
/// the fraction, with a leading one and shifted unless the exponent is zero.
pub open spec fn units(m: int) -> int {
    let exponent = m / fraction_bits();
    let fraction = m % fraction_bits();
    if exponent == 0 {
        fraction
    } else {
        (fraction_bits() + fraction) * pow2((exponent - 1) as nat) as int
    }
}

/// The value of a double that is a number, in units of the smallest one above zero.
pub open spec fn double_units(n: u64) -> int {
    if n < SIGN_BIT {
        units(n as int)
    } else {
        -units(n - SIGN_BIT)
    }
}

/// The bits are those of a number, finite or not.
pub open spec fn is_number(n: u64) -> bool {
    n <= INFINITY_BITS || SIGN_BIT <= n <= SIGN_BIT + INFINITY_BITS
}

proof fn lemma_units_grow(a: int, b: int)
    requires
        0 <= a < b,
    ensures
        0 <= units(a) < units(b),
{
    let f = fraction_bits();
    let ea = a / f;
    let eb = b / f;
    let fa = a % f;
    let fb = b % f;
    assert(a == f * ea + fa && 0 <= fa < f && ea >= 0) by (nonlinear_arith)
        requires
            f == 0x10_0000_0000_0000,
            ea == a / f,
            fa == a % f,
            a >= 0,
    ;
    assert(b == f * eb + fb && 0 <= fb < f && eb >= 0) by (nonlinear_arith)
        requires
            f == 0x10_0000_0000_0000,
            eb == b / f,
            fb == b % f,
            b >= 0,
    ;
    assert(ea <= eb) by (nonlinear_arith)
        requires
            a == f * ea + fa,
            b == f * eb + fb,
            0 <= fa < f,
            0 <= fb < f,
            a < b,
            f == 0x10_0000_0000_0000,
    ;
    if ea > 0 {
        lemma_pow2_pos((ea - 1) as nat);
    }
    if eb > 0 {
        lemma_pow2_pos((eb - 1) as nat);
    }
    if ea == 0 {
        if eb > 0 {
            let p = pow2((eb - 1) as nat) as int;
            assert((f + fb) * p >= f + fb) by (nonlinear_arith)
                requires
                    p >= 1,
                    f + fb >= 0,
            ;
        }
    } else {
        let p = pow2((ea - 1) as nat) as int;
        let q = pow2((eb - 1) as nat) as int;
        assert(p >= 1);
        assert(0 <= (f + fa) * p) by (nonlinear_arith)
            requires
                p >= 1,
                f + fa >= 0,
        ;
        if ea == eb {
            assert(fa < fb);
            assert((f + fa) * p < (f + fb) * p) by (nonlinear_arith)
                requires
                    fa < fb,
                    p >= 1,
            ;
        } else {
            let r = pow2(ea as nat) as int;
            lemma_pow2_adds(1, (ea - 1) as nat);
            vstd::arithmetic::power2::lemma2_to64();
            assert(r == 2 * p);
            if ea < eb - 1 {
                lemma_pow2_strictly_increases(ea as nat, (eb - 1) as nat);
            }
            assert(r <= q);
            assert((f + fa) * p < (f + fb) * q) by (nonlinear_arith)
                requires
                    r == 2 * p,
                    r <= q,
                    p >= 1,
                    0 <= fa < f,
                    0 <= fb,
            ;
        }
    }
}

proof fn lemma_units(a: int, b: int)
    requires
        0 <= a,
        0 <= b,
    ensures
        a < b <==> units(a) < units(b),
        a == b <==> units(a) == units(b),
        0 <= units(a),
        units(a) == 0 <==> a == 0,
{
    if a < b {
        lemma_units_grow(a, b);
    }
    if b < a {
        lemma_units_grow(b, a);
    }
    if a > 0 {
        lemma_units_grow(0, a);
    }
}

/// Numbers are compared by what their bits stand for: sign, exponent and fraction.
/// What is not a number is neither equal to anything nor before or after it.
pub proof fn law_numbers_compare_by_value(a: u64, b: u64)
    ensures
        is_number(a) && is_number(b) ==> {
            &&& number_side(a, b) == Some(Side::Before) <==> double_units(a) < double_units(b)
            &&& number_side(a, b) == Some(Side::Same) <==> double_units(a) == double_units(b)
            &&& number_side(a, b) == Some(Side::After) <==> double_units(a) > double_units(b)
            &&& number_equal(a, b) <==> double_units(a) == double_units(b)
            &&& double_units(a) < double_units(b) ==> total_rank(a) < total_rank(b)
        },
        !(is_number(a) && is_number(b)) ==> number_side(a, b) is None && !number_equal(a, b),
{
    let x = if a < SIGN_BIT {
        a as int
    } else {
        a - SIGN_BIT
    };
    let y = if b < SIGN_BIT {
        b as int
    } else {
        b - SIGN_BIT
    };
    lemma_units(x, y);
    lemma_units(y, x);
}

/// In the order of solutions, a number with a sign bit comes before one without, and
/// among numbers of one sign the bits decide.
pub open spec fn number_precedes(a: u64, b: u64) -> bool {
    match (a >= SIGN_BIT, b >= SIGN_BIT) {
        (true, false) => true,
        (false, true) => false,
        (false, false) => a < b,
        (true, true) => a > b,
    }
}

/// The order of solutions puts numbers in the order of their values.
pub proof fn law_number_order(a: u64, b: u64)
    ensures
        total_rank(a) < total_rank(b) <==> number_precedes(a, b),
        total_rank(a) == total_rank(b) <==> a == b,
        is_number(a) && is_number(b) && double_units(a) < double_units(b) ==> number_precedes(a, b),
{
    law_numbers_compare_by_value(a, b);
}

// --- Comparisons -----------------------------------------------------------------------

/// The two values are texts of one kind, `s` and `t`: plain literals, tagged ones, IRIs,
/// blank nodes, or literals of one datatype.
pub open spec fn texts_of_a_kind(x: Val, y: Val, s: Seq<char>, t: Seq<char>) -> bool {
    match (x, y) {
        (Val::Str(u), Val::Str(w)) => u == s && w == t,
        (Val::Lang(u, _), Val::Lang(w, _)) => u == s && w == t,
        (Val::Iri(u), Val::Iri(w)) => u == s && w == t,
        (Val::Blank(u), Val::Blank(w)) => u == s && w == t,
        (Val::Typed(u, d), Val::Typed(w, e)) => u == s && w == t && d == e,
        _ => false,
    }
}

/// The number that a value counts as: its own, or one for true and zero for false.
pub open spec fn counts_as(x: Val, n: u64) -> bool {
    x == Val::Num(n) || (x == Val::Bool(true) && n == ONE_BITS) || (x == Val::Bool(false) && n == 0)
}

/// An operation on two expressions.
pub open spec fn on(op: BinaryOp, a: ExprView, b: ExprView) -> ExprView {
    ExprView::Binary(op, Box::new(a), Box::new(b))
}

/// Texts are compared by code points: the smaller one is the one with the smaller
/// character at the first difference, or the proper prefix.
pub proof fn law_texts_compare_by_code_points(
    a: ExprView,
    b: ExprView,
    c: Scope,
    x: Val,
    y: Val,
    s: Seq<char>,
    t: Seq<char>,
)
    requires
        ev(a, c) == Some(x),
        ev(b, c) == Some(y),
        texts_of_a_kind(x, y, s, t),
    ensures
        ev(on(BinaryOp::Less, a, b), c) == Some(Val::Bool(precedes(s, t))),
        ev(on(BinaryOp::LessOrEqual, a, b), c) == Some(Val::Bool(precedes(s, t) || s == t)),
        ev(on(BinaryOp::Greater, a, b), c) == Some(Val::Bool(precedes(t, s))),
        ev(on(BinaryOp::GreaterOrEqual, a, b), c) == Some(Val::Bool(precedes(t, s) || s == t)),
        vals_side(x, y) == Some(Side::Before) <==> precedes(s, t),
        vals_side(x, y) == Some(Side::After) <==> precedes(t, s),
        vals_side(x, y) == Some(Side::Same) <==> s == t,
{
    law_text_order(s, t);
}

/// Two terms that are not numbers are equal if they are the same: text, tag and
/// datatype agree.
pub proof fn law_equal_terms(a: ExprView, b: ExprView, c: Scope, x: Val, y: Val, s: Seq<char>, t: Seq<char>)
    requires
        ev(a, c) == Some(x),
        ev(b, c) == Some(y),
        texts_of_a_kind(x, y, s, t),
    ensures
        ev(on(BinaryOp::Equal, a, b), c) == Some(Val::Bool(x == y)),
        vals_equal(x, y) == Some(x == y),
{
}

/// Numbers and truth values are compared as numbers, by their values.
pub proof fn law_numbers_compare(a: ExprView, b: ExprView, c: Scope, x: Val, y: Val, m: u64, n: u64)
    requires
        ev(a, c) == Some(x),
        ev(b, c) == Some(y),
        counts_as(x, m),
        counts_as(y, n),
        is_number(m),
        is_number(n),
    ensures
        ({
            let i = double_units(m);
            let j = double_units(n);
            &&& ev(on(BinaryOp::Less, a, b), c) == Some(Val::Bool(i < j))
            &&& ev(on(BinaryOp::LessOrEqual, a, b), c) == Some(Val::Bool(i <= j))
            &&& ev(on(BinaryOp::Greater, a, b), c) == Some(Val::Bool(i > j))
            &&& ev(on(BinaryOp::GreaterOrEqual, a, b), c) == Some(Val::Bool(i >= j))
            &&& ev(on(BinaryOp::Equal, a, b), c) == Some(Val::Bool(i == j))
        }),
{
    law_numbers_compare_by_value(m, n);
}

/// Values of different kinds are neither compared nor equated, and neither are literals
/// of different datatypes compared: the operation is an error.
pub proof fn law_kinds_are_not_compared(a: ExprView, b: ExprView, c: Scope, x: Val, y: Val)
    requires
        ev(a, c) == Some(x),
        ev(b, c) == Some(y),
        forall|s: Seq<char>, t: Seq<char>| !(#[trigger] texts_of_a_kind(x, y, s, t)),
        forall|m: u64, n: u64| !(#[trigger] counts_as(x, m) && #[trigger] counts_as(y, n)),
    ensures
        ev(on(BinaryOp::Less, a, b), c) is None,
        ev(on(BinaryOp::LessOrEqual, a, b), c) is None,
        ev(on(BinaryOp::Greater, a, b), c) is None,
        ev(on(BinaryOp::GreaterOrEqual, a, b), c) is None,
        ev(on(BinaryOp::Equal, a, b), c) == (if x is Typed && y is Typed {
            Some(Val::Bool(false))
        } else {
            None
        }),
{
    if let Some(m) = val_number(x) {
        assert(counts_as(x, m));
        if let Some(n) = val_number(y) {
            assert(counts_as(y, n));
        }
    }
    match (x, y) {
        (Val::Str(s), Val::Str(t)) => {
            assert(texts_of_a_kind(x, y, s, t));
        },
        (Val::Lang(s, _), Val::Lang(t, _)) => {
            assert(texts_of_a_kind(x, y, s, t));
        },
        (Val::Iri(s), Val::Iri(t)) => {
            assert(texts_of_a_kind(x, y, s, t));
        },
        (Val::Blank(s), Val::Blank(t)) => {
            assert(texts_of_a_kind(x, y, s, t));
        },
        (Val::Typed(s, d), Val::Typed(t, e)) => {
            if d == e {
                assert(texts_of_a_kind(x, y, s, t));
            }
        },
        _ => {},
    }
}

/// An operation on an error is an error, but for the logical ones and the comparison of
/// terms.
pub proof fn law_errors_spread(op: BinaryOp, a: ExprView, b: ExprView, c: Scope)
    requires
        ev(a, c) is None || ev(b, c) is None,
        op != BinaryOp::Or,
        op != BinaryOp::And,
        op != BinaryOp::SameTerm,
    ensures
        ev(on(op, a, b), c) is None,
{
}

// --- Logic -----------------------------------------------------------------------------

/// What counts as true: the truth value itself, a number that is not zero and is a
/// number, a plain literal with some text. Other values have no truth.
pub proof fn law_truth(v: Val)
    ensures
        match v {
            Val::Bool(b) => truth(v) == Some(b),
            Val::Num(n) => truth(v) == Some(is_number(n) && double_units(n) != 0),
            Val::Str(s) => truth(v) == Some(s != Seq::<char>::empty()),
            _ => truth(v) is None,
        },
{
    match v {
        Val::Num(n) => {
            let x = if n < SIGN_BIT {
                n as int
            } else {
                n - SIGN_BIT
            };
            lemma_units(x, 0);
        },
        Val::Str(s) => {
            if s.len() == 0 {
                assert(s =~= Seq::<char>::empty());
            }
        },
        _ => {},
    }
}

/// A disjunction is true if one side is, false if both are false, else an error; a
/// conjunction is false if one side is, true if both are true, else an error; a negation
/// swaps true and false.
pub proof fn law_logic(a: ExprView, b: ExprView, c: Scope)
    ensures
        ({
            let x = opt_truth(ev(a, c));
            let y = opt_truth(ev(b, c));
            let or = ev(on(BinaryOp::Or, a, b), c);
            let and = ev(on(BinaryOp::And, a, b), c);
            let not = ev(ExprView::Unary(UnaryOp::Not, Box::new(a)), c);
            &&& or == Some(Val::Bool(true)) <==> x == Some(true) || y == Some(true)
            &&& or == Some(Val::Bool(false)) <==> x == Some(false) && y == Some(false)
            &&& or is None <==> (x is None || y is None) && x != Some(true) && y != Some(true)
            &&& and == Some(Val::Bool(false)) <==> x == Some(false) || y == Some(false)
            &&& and == Some(Val::Bool(true)) <==> x == Some(true) && y == Some(true)
            &&& and is None <==> (x is None || y is None) && x != Some(false) && y != Some(false)
            &&& not == Some(Val::Bool(true)) <==> x == Some(false)
            &&& not == Some(Val::Bool(false)) <==> x == Some(true)
            &&& not is None <==> x is None
        }),
{
}

/// A choice gives its first part where the condition is true, its second where it is
/// false, and is an error where the condition has no truth.
pub proof fn law_if(t: ExprView, a: ExprView, b: ExprView, c: Scope)
    ensures
        ({
            let e = ev(ExprView::If(Box::new(t), Box::new(a), Box::new(b)), c);
            &&& opt_truth(ev(t, c)) == Some(true) ==> e == ev(a, c)
            &&& opt_truth(ev(t, c)) == Some(false) ==> e == ev(b, c)
            &&& opt_truth(ev(t, c)) is None ==> e is None
        }),
{
}

/// A value is in a list exactly if it equals one of the listed values. An item that is
/// an error, or that the value cannot be compared with, does not count.
pub proof fn law_in(x: ExprView, list: Seq<ExprView>, c: Scope, v: Val)
    requires
        ev(x, c) == Some(v),
    ensures
        ev(ExprView::In(Box::new(x), list), c) == Some(
            Val::Bool(
                exists|i: int|
                    0 <= i < list.len() && (#[trigger] ev(list[i], c)) is Some && vals_equal(
                        v,
                        ev(list[i], c)->0,
                    ) == Some(true),
            ),
        ),
{
    lemma_listed(v, list, 0, c);
}

/// A value is in a list exactly if the comparison with one of the items is true; an error is
/// in no list, and the test is an error.
pub proof fn law_in_means_equal(x: ExprView, list: Seq<ExprView>, c: Scope)
    ensures
        ev(x, c) is None ==> ev(ExprView::In(Box::new(x), list), c) is None,
        ev(x, c) is Some ==> ev(ExprView::In(Box::new(x), list), c) == Some(
            Val::Bool(
                exists|i: int|
                    0 <= i < list.len() && ev(
                        ExprView::Binary(BinaryOp::Equal, Box::new(x), Box::new(#[trigger] list[i])),
                        c,
                    ) == Some(Val::Bool(true)),
            ),
        ),
{
    if let Some(v) = ev(x, c) {
        lemma_listed(v, list, 0, c);
        assert forall|i: int| 0 <= i < list.len() implies (ev(
            ExprView::Binary(BinaryOp::Equal, Box::new(x), Box::new(#[trigger] list[i])),
            c,
        ) == Some(Val::Bool(true)) <==> ev(list[i], c) is Some && vals_equal(v, ev(list[i], c)->0) == Some(true)) by {
            reveal_with_fuel(ev, 2);
        }
        let found = crate::sparql::expr::listed(v, list, 0, c);
        if found {
            let i = choose|i: int|
                0 <= i < list.len() && (#[trigger] ev(list[i], c)) is Some && vals_equal(v, ev(list[i], c)->0)
                    == Some(true);
            assert(ev(ExprView::Binary(BinaryOp::Equal, Box::new(x), Box::new(list[i])), c) == Some(
                Val::Bool(true),
            ));
        }
    }
}

proof fn lemma_listed(v: Val, list: Seq<ExprView>, k: int, c: Scope)
    requires
        0 <= k,
    ensures
        crate::sparql::expr::listed(v, list, k, c) <==> exists|i: int|
            k <= i < list.len() && (#[trigger] ev(list[i], c)) is Some && vals_equal(v, ev(list[i], c)->0)
                == Some(true),
    decreases list.len() - k,
{
    reveal_with_fuel(crate::sparql::expr::listed, 2);
    reveal_with_fuel(ev, 2);
    if k < list.len() {
        lemma_listed(v, list, k + 1, c);
        if crate::sparql::expr::listed(v, list, k, c) {
            assert(ev(list[k], c) is Some || crate::sparql::expr::listed(v, list, k + 1, c));
        }
        if exists|i: int|
            k <= i < list.len() && (#[trigger] ev(list[i], c)) is Some && vals_equal(v, ev(list[i], c)->0)
                == Some(true) {
            let i = choose|i: int|
                k <= i < list.len() && (#[trigger] ev(list[i], c)) is Some && vals_equal(
                    v,
                    ev(list[i], c)->0,
                ) == Some(true);
            if i > k {
                assert(k + 1 <= i);
            }
        }
    }
}

// --- Terms and variables -----------------------------------------------------------------

/// A constant has the value that the same term has where it is stored. What is not supported
/// is an error.
pub proof fn law_constants(c: Scope, v: Seq<char>, k: TermKind, id: u32, name: Seq<char>)
    requires
        encodable(v, k),
        id < c.keys.len(),
        c.keys[id as int] == term_key(v, k),
    ensures
        ev(ExprView::Known(v, k), c) == id_value(c.num, c.keys, id),
        ev(ExprView::Unsupported(name), c) is None,
{
    law_key_round_trip(v, k);
    law_value_of_term(c.num, v, Seq::empty(), None);
}

/// The column of a name in a row.
pub open spec fn is_column(vars: Seq<Seq<char>>, name: Seq<char>, i: int) -> bool {
    0 <= i < vars.len() && vars[i] == name
}

/// A variable has the value of the term in its column; where that is unbound, or there is
/// no such column, it is an error and not bound.
pub proof fn law_variable(c: Scope, name: Seq<char>, i: int)
    requires
        c.vars.no_duplicates(),
        c.row.len() == c.vars.len(),
        is_column(c.vars, name, i),
    ensures
        ({
            let id = c.row[i];
            &&& ev(ExprView::Bound(name), c) == Some(Val::Bool(id != NULL_ID))
            &&& id == NULL_ID ==> ev(ExprView::Variable(name), c) is None
            &&& id != NULL_ID && id < c.keys.len() ==> ev(ExprView::Variable(name), c) == Some(
                known_value(c.num, key_value(c.keys[id as int]), key_kind(c.keys[id as int])),
            )
            &&& id != NULL_ID && id >= c.keys.len() ==> ev(ExprView::Variable(name), c) is None
        }),
{
    crate::sparql::table_laws::lemma_place_at(c.vars, i);
}

pub proof fn law_no_such_variable(c: Scope, name: Seq<char>)
    requires
        !c.vars.contains(name),
    ensures
        ev(ExprView::Variable(name), c) is None,
        ev(ExprView::Bound(name), c) == Some(Val::Bool(false)),
{
    crate::hypertrie::executor::lemma_place_bounds(c.vars, name);
}

/// The value of a term: IRIs, blank nodes, tagged and plain literals are what they are,
/// the string datatype is plain, the boolean datatype gives a truth value.
pub proof fn law_value_of_term(num: Replies, s: Seq<char>, l: Seq<char>, d: Option<Seq<char>>)
    ensures
        known_value(num, s, TermKind::Iri) == Val::Iri(s),
        known_value(num, s, TermKind::BlankNode) == Val::Blank(s),
        known_value(num, s, TermKind::Literal { datatype: d, lang: Some(l) }) == Val::Lang(s, l),
        known_value(num, s, TermKind::Literal { datatype: None, lang: None }) == Val::Str(s),
        known_value(
            num,
            s,
            TermKind::Literal {
                datatype: Some("http://www.w3.org/2001/XMLSchema#string"@),
                lang: None,
            },
        ) == Val::Str(s),
        known_value(
            num,
            s,
            TermKind::Literal {
                datatype: Some("http://www.w3.org/2001/XMLSchema#boolean"@),
                lang: None,
            },
        ) == Val::Bool(s == "true"@ || s == "1"@),
{
    lemma_xsd("string"@);
    lemma_xsd("boolean"@);
    reveal_strlit("http://www.w3.org/2001/XMLSchema#string");
    reveal_strlit("http://www.w3.org/2001/XMLSchema#boolean");
    reveal_strlit("http://www.w3.org/2001/XMLSchema#");
    reveal_strlit("string");
    reveal_strlit("boolean");
    assert("http://www.w3.org/2001/XMLSchema#string"@ =~= xsd() + "string"@);
    assert("http://www.w3.org/2001/XMLSchema#boolean"@ =~= xsd() + "boolean"@);
    assert("string"@.len() != "boolean"@.len());
}

proof fn lemma_xsd(name: Seq<char>)
    ensures
        xsd_name(xsd() + name) == Some(name),
{
    let d = xsd() + name;
    assert(d.subrange(0, xsd().len() as int) =~= xsd());
    assert(d.skip(xsd().len() as int) =~= name);
}

/// The datatypes whose literals are numbers.
pub open spec fn is_numeric_type(d: Seq<char>) -> bool {
    ||| d == "http://www.w3.org/2001/XMLSchema#integer"@
    ||| d == "http://www.w3.org/2001/XMLSchema#decimal"@
    ||| d == "http://www.w3.org/2001/XMLSchema#double"@
    ||| d == "http://www.w3.org/2001/XMLSchema#float"@
    ||| d == "http://www.w3.org/2001/XMLSchema#int"@
    ||| d == "http://www.w3.org/2001/XMLSchema#long"@
    ||| d == "http://www.w3.org/2001/XMLSchema#short"@
    ||| d == "http://www.w3.org/2001/XMLSchema#byte"@
    ||| d == "http://www.w3.org/2001/XMLSchema#nonNegativeInteger"@
    ||| d == "http://www.w3.org/2001/XMLSchema#positiveInteger"@
    ||| d == "http://www.w3.org/2001/XMLSchema#nonPositiveInteger"@
    ||| d == "http://www.w3.org/2001/XMLSchema#negativeInteger"@
    ||| d == "http://www.w3.org/2001/XMLSchema#unsignedInt"@
    ||| d == "http://www.w3.org/2001/XMLSchema#unsignedLong"@
    ||| d == "http://www.w3.org/2001/XMLSchema#unsignedShort"@
    ||| d == "http://www.w3.org/2001/XMLSchema#unsignedByte"@
}

proof fn lemma_cancel(a: Seq<char>, b: Seq<char>, c: Seq<char>)
    requires
        a + b == a + c,
    ensures
        b == c,
{
    assert(b =~= (a + b).skip(a.len() as int));
    assert(c =~= (a + c).skip(a.len() as int));
}

proof fn lemma_type_integer(name: Seq<char>)
    ensures
        name == "integer"@ <==> xsd() + name == "http://www.w3.org/2001/XMLSchema#integer"@,
{
    reveal_strlit("http://www.w3.org/2001/XMLSchema#");
    reveal_strlit("integer");
    reveal_strlit("http://www.w3.org/2001/XMLSchema#integer");
    assert("http://www.w3.org/2001/XMLSchema#integer"@ =~= xsd() + "integer"@);
    if xsd() + name == xsd() + "integer"@ {
        lemma_cancel(xsd(), name, "integer"@);
    }
}

proof fn lemma_type_decimal(name: Seq<char>)
    ensures
        name == "decimal"@ <==> xsd() + name == "http://www.w3.org/2001/XMLSchema#decimal"@,
{
    reveal_strlit("http://www.w3.org/2001/XMLSchema#");
    reveal_strlit("decimal");
    reveal_strlit("http://www.w3.org/2001/XMLSchema#decimal");
    assert("http://www.w3.org/2001/XMLSchema#decimal"@ =~= xsd() + "decimal"@);
    if xsd() + name == xsd() + "decimal"@ {
        lemma_cancel(xsd(), name, "decimal"@);
    }
}

proof fn lemma_type_double(name: Seq<char>)
    ensures
        name == "double"@ <==> xsd() + name == "http://www.w3.org/2001/XMLSchema#double"@,
{
    reveal_strlit("http://www.w3.org/2001/XMLSchema#");
    reveal_strlit("double");
    reveal_strlit("http://www.w3.org/2001/XMLSchema#double");
    assert("http://www.w3.org/2001/XMLSchema#double"@ =~= xsd() + "double"@);
    if xsd() + name == xsd() + "double"@ {
        lemma_cancel(xsd(), name, "double"@);
    }
}

proof fn lemma_type_float(name: Seq<char>)
    ensures
        name == "float"@ <==> xsd() + name == "http://www.w3.org/2001/XMLSchema#float"@,
{
    reveal_strlit("http://www.w3.org/2001/XMLSchema#");
    reveal_strlit("float");
    reveal_strlit("http://www.w3.org/2001/XMLSchema#float");
    assert("http://www.w3.org/2001/XMLSchema#float"@ =~= xsd() + "float"@);
    if xsd() + name == xsd() + "float"@ {
        lemma_cancel(xsd(), name, "float"@);
    }
}

proof fn lemma_type_int(name: Seq<char>)
    ensures
        name == "int"@ <==> xsd() + name == "http://www.w3.org/2001/XMLSchema#int"@,
{
    reveal_strlit("http://www.w3.org/2001/XMLSchema#");
    reveal_strlit("int");
    reveal_strlit("http://www.w3.org/2001/XMLSchema#int");
    assert("http://www.w3.org/2001/XMLSchema#int"@ =~= xsd() + "int"@);
    if xsd() + name == xsd() + "int"@ {
        lemma_cancel(xsd(), name, "int"@);
    }
}

proof fn lemma_type_long(name: Seq<char>)
    ensures
        name == "long"@ <==> xsd() + name == "http://www.w3.org/2001/XMLSchema#long"@,
{
    reveal_strlit("http://www.w3.org/2001/XMLSchema#");
    reveal_strlit("long");
    reveal_strlit("http://www.w3.org/2001/XMLSchema#long");
    assert("http://www.w3.org/2001/XMLSchema#long"@ =~= xsd() + "long"@);
    if xsd() + name == xsd() + "long"@ {
        lemma_cancel(xsd(), name, "long"@);
    }
}

proof fn lemma_type_short(name: Seq<char>)
    ensures
        name == "short"@ <==> xsd() + name == "http://www.w3.org/2001/XMLSchema#short"@,
{
    reveal_strlit("http://www.w3.org/2001/XMLSchema#");
    reveal_strlit("short");
    reveal_strlit("http://www.w3.org/2001/XMLSchema#short");
    assert("http://www.w3.org/2001/XMLSchema#short"@ =~= xsd() + "short"@);
    if xsd() + name == xsd() + "short"@ {
        lemma_cancel(xsd(), name, "short"@);
    }
}

proof fn lemma_type_byte(name: Seq<char>)
    ensures
        name == "byte"@ <==> xsd() + name == "http://www.w3.org/2001/XMLSchema#byte"@,
{
    reveal_strlit("http://www.w3.org/2001/XMLSchema#");
    reveal_strlit("byte");
    reveal_strlit("http://www.w3.org/2001/XMLSchema#byte");
    assert("http://www.w3.org/2001/XMLSchema#byte"@ =~= xsd() + "byte"@);
    if xsd() + name == xsd() + "byte"@ {
        lemma_cancel(xsd(), name, "byte"@);
    }
}

proof fn lemma_type_non_negative_integer(name: Seq<char>)
    ensures
        name == "nonNegativeInteger"@ <==> xsd() + name == "http://www.w3.org/2001/XMLSchema#nonNegativeInteger"@,
{
    reveal_strlit("http://www.w3.org/2001/XMLSchema#");
    reveal_strlit("nonNegativeInteger");
    reveal_strlit("http://www.w3.org/2001/XMLSchema#nonNegativeInteger");
    assert("http://www.w3.org/2001/XMLSchema#nonNegativeInteger"@ =~= xsd() + "nonNegativeInteger"@);
    if xsd() + name == xsd() + "nonNegativeInteger"@ {
        lemma_cancel(xsd(), name, "nonNegativeInteger"@);
    }
}

proof fn lemma_type_positive_integer(name: Seq<char>)
    ensures
        name == "positiveInteger"@ <==> xsd() + name == "http://www.w3.org/2001/XMLSchema#positiveInteger"@,
{
    reveal_strlit("http://www.w3.org/2001/XMLSchema#");
    reveal_strlit("positiveInteger");
    reveal_strlit("http://www.w3.org/2001/XMLSchema#positiveInteger");
    assert("http://www.w3.org/2001/XMLSchema#positiveInteger"@ =~= xsd() + "positiveInteger"@);
    if xsd() + name == xsd() + "positiveInteger"@ {
        lemma_cancel(xsd(), name, "positiveInteger"@);
    }
}

proof fn lemma_type_non_positive_integer(name: Seq<char>)
    ensures
        name == "nonPositiveInteger"@ <==> xsd() + name == "http://www.w3.org/2001/XMLSchema#nonPositiveInteger"@,
{
    reveal_strlit("http://www.w3.org/2001/XMLSchema#");
    reveal_strlit("nonPositiveInteger");
    reveal_strlit("http://www.w3.org/2001/XMLSchema#nonPositiveInteger");
    assert("http://www.w3.org/2001/XMLSchema#nonPositiveInteger"@ =~= xsd() + "nonPositiveInteger"@);
    if xsd() + name == xsd() + "nonPositiveInteger"@ {
        lemma_cancel(xsd(), name, "nonPositiveInteger"@);
    }
}

proof fn lemma_type_negative_integer(name: Seq<char>)
    ensures
        name == "negativeInteger"@ <==> xsd() + name == "http://www.w3.org/2001/XMLSchema#negativeInteger"@,
{
    reveal_strlit("http://www.w3.org/2001/XMLSchema#");
    reveal_strlit("negativeInteger");
    reveal_strlit("http://www.w3.org/2001/XMLSchema#negativeInteger");
    assert("http://www.w3.org/2001/XMLSchema#negativeInteger"@ =~= xsd() + "negativeInteger"@);
    if xsd() + name == xsd() + "negativeInteger"@ {
        lemma_cancel(xsd(), name, "negativeInteger"@);
    }
}

proof fn lemma_type_unsigned_int(name: Seq<char>)
    ensures
        name == "unsignedInt"@ <==> xsd() + name == "http://www.w3.org/2001/XMLSchema#unsignedInt"@,
{
    reveal_strlit("http://www.w3.org/2001/XMLSchema#");
    reveal_strlit("unsignedInt");
    reveal_strlit("http://www.w3.org/2001/XMLSchema#unsignedInt");
    assert("http://www.w3.org/2001/XMLSchema#unsignedInt"@ =~= xsd() + "unsignedInt"@);
    if xsd() + name == xsd() + "unsignedInt"@ {
        lemma_cancel(xsd(), name, "unsignedInt"@);
    }
}

proof fn lemma_type_unsigned_long(name: Seq<char>)
    ensures
        name == "unsignedLong"@ <==> xsd() + name == "http://www.w3.org/2001/XMLSchema#unsignedLong"@,
{
    reveal_strlit("http://www.w3.org/2001/XMLSchema#");
    reveal_strlit("unsignedLong");
    reveal_strlit("http://www.w3.org/2001/XMLSchema#unsignedLong");
    assert("http://www.w3.org/2001/XMLSchema#unsignedLong"@ =~= xsd() + "unsignedLong"@);
    if xsd() + name == xsd() + "unsignedLong"@ {
        lemma_cancel(xsd(), name, "unsignedLong"@);
    }
}

proof fn lemma_type_unsigned_short(name: Seq<char>)
    ensures
        name == "unsignedShort"@ <==> xsd() + name == "http://www.w3.org/2001/XMLSchema#unsignedShort"@,
{
    reveal_strlit("http://www.w3.org/2001/XMLSchema#");
    reveal_strlit("unsignedShort");
    reveal_strlit("http://www.w3.org/2001/XMLSchema#unsignedShort");
    assert("http://www.w3.org/2001/XMLSchema#unsignedShort"@ =~= xsd() + "unsignedShort"@);
    if xsd() + name == xsd() + "unsignedShort"@ {
        lemma_cancel(xsd(), name, "unsignedShort"@);
    }
}

proof fn lemma_type_unsigned_byte(name: Seq<char>)
    ensures
        name == "unsignedByte"@ <==> xsd() + name == "http://www.w3.org/2001/XMLSchema#unsignedByte"@,
{
    reveal_strlit("http://www.w3.org/2001/XMLSchema#");
    reveal_strlit("unsignedByte");
    reveal_strlit("http://www.w3.org/2001/XMLSchema#unsignedByte");
    assert("http://www.w3.org/2001/XMLSchema#unsignedByte"@ =~= xsd() + "unsignedByte"@);
    if xsd() + name == xsd() + "unsignedByte"@ {
        lemma_cancel(xsd(), name, "unsignedByte"@);
    }
}

proof fn lemma_type_string(name: Seq<char>)
    ensures
        name == "string"@ <==> xsd() + name == "http://www.w3.org/2001/XMLSchema#string"@,
        name == "boolean"@ <==> xsd() + name == "http://www.w3.org/2001/XMLSchema#boolean"@,
{
    reveal_strlit("http://www.w3.org/2001/XMLSchema#");
    reveal_strlit("string");
    reveal_strlit("boolean");
    reveal_strlit("http://www.w3.org/2001/XMLSchema#string");
    reveal_strlit("http://www.w3.org/2001/XMLSchema#boolean");
    assert("http://www.w3.org/2001/XMLSchema#string"@ =~= xsd() + "string"@);
    assert("http://www.w3.org/2001/XMLSchema#boolean"@ =~= xsd() + "boolean"@);
    if xsd() + name == xsd() + "string"@ {
        lemma_cancel(xsd(), name, "string"@);
    }
    if xsd() + name == xsd() + "boolean"@ {
        lemma_cancel(xsd(), name, "boolean"@);
    }
}

proof fn lemma_numeric_types(name: Seq<char>)
    ensures
        crate::sparql::values::numeric_name(name) <==> is_numeric_type(xsd() + name),
{
    lemma_type_integer(name);
    lemma_type_decimal(name);
    lemma_type_double(name);
    lemma_type_float(name);
    lemma_type_int(name);
    lemma_type_long(name);
    lemma_type_short(name);
    lemma_type_byte(name);
    lemma_type_non_negative_integer(name);
    lemma_type_positive_integer(name);
    lemma_type_non_positive_integer(name);
    lemma_type_negative_integer(name);
    lemma_type_unsigned_int(name);
    lemma_type_unsigned_long(name);
    lemma_type_unsigned_short(name);
    lemma_type_unsigned_byte(name);
}

/// All numeric types are of the XML Schema namespace.
proof fn lemma_numeric_prefix(d: Seq<char>)
    requires
        is_numeric_type(d) || d == "http://www.w3.org/2001/XMLSchema#string"@ || d
            == "http://www.w3.org/2001/XMLSchema#boolean"@,
    ensures
        xsd_name(d) is Some,
        d == xsd() + xsd_name(d)->0,
{
    reveal_strlit("http://www.w3.org/2001/XMLSchema#");
    reveal_strlit("http://www.w3.org/2001/XMLSchema#string");
    reveal_strlit("http://www.w3.org/2001/XMLSchema#boolean");
    reveal_strlit("http://www.w3.org/2001/XMLSchema#integer");
    reveal_strlit("http://www.w3.org/2001/XMLSchema#decimal");
    reveal_strlit("http://www.w3.org/2001/XMLSchema#double");
    reveal_strlit("http://www.w3.org/2001/XMLSchema#float");
    reveal_strlit("http://www.w3.org/2001/XMLSchema#int");
    reveal_strlit("http://www.w3.org/2001/XMLSchema#long");
    reveal_strlit("http://www.w3.org/2001/XMLSchema#short");
    reveal_strlit("http://www.w3.org/2001/XMLSchema#byte");
    reveal_strlit("http://www.w3.org/2001/XMLSchema#nonNegativeInteger");
    reveal_strlit("http://www.w3.org/2001/XMLSchema#positiveInteger");
    reveal_strlit("http://www.w3.org/2001/XMLSchema#nonPositiveInteger");
    reveal_strlit("http://www.w3.org/2001/XMLSchema#negativeInteger");
    reveal_strlit("http://www.w3.org/2001/XMLSchema#unsignedInt");
    reveal_strlit("http://www.w3.org/2001/XMLSchema#unsignedLong");
    reveal_strlit("http://www.w3.org/2001/XMLSchema#unsignedShort");
    reveal_strlit("http://www.w3.org/2001/XMLSchema#unsignedByte");
    assert(d.subrange(0, xsd().len() as int) =~= xsd());
    assert(d =~= xsd() + d.skip(xsd().len() as int));
}

/// A literal of a numeric datatype is the number that its text stands for, if it stands
/// for one. A literal of any datatype but these and those of strings and truth values
/// stays what it is.
pub proof fn law_typed_literals(num: Replies, s: Seq<char>, d: Seq<char>)
    ensures
        is_numeric_type(d) ==> known_value(num, s, TermKind::Literal { datatype: Some(d), lang: None }) == (
        match num(NumberCallView::Parse(s)) {
            NumberReplyView::Number(n) => Val::Num(n),
            _ => Val::Typed(s, d),
        }),
        !is_numeric_type(d) && d != "http://www.w3.org/2001/XMLSchema#string"@ && d
            != "http://www.w3.org/2001/XMLSchema#boolean"@ ==> known_value(
            num,
            s,
            TermKind::Literal { datatype: Some(d), lang: None },
        ) == Val::Typed(s, d),
{
    match xsd_name(d) {
        Some(name) => {
            assert(d =~= xsd() + name);
            lemma_numeric_types(name);
            lemma_type_string(name);
            if is_numeric_type(d) {
                reveal_strlit("string");
                reveal_strlit("boolean");
                lemma_not_numeric();
            }
        },
        None => {
            if is_numeric_type(d) {
                lemma_numeric_prefix(d);
            }
        },
    }
}

proof fn lemma_not_numeric()
    ensures
        !crate::sparql::values::numeric_name("string"@),
        !crate::sparql::values::numeric_name("boolean"@),
{
    reveal_strlit("string");
    reveal_strlit("boolean");
    let s = "string"@;
    let b = "boolean"@;
    assert(s[0] == 's' && s[1] == 't' && s.len() == 6);
    assert(b[0] == 'b' && b[1] == 'o');
    reveal_strlit("integer");
    reveal_strlit("decimal");
    reveal_strlit("double");
    reveal_strlit("float");
    reveal_strlit("int");
    reveal_strlit("long");
    reveal_strlit("short");
    reveal_strlit("byte");
    reveal_strlit("nonNegativeInteger");
    reveal_strlit("positiveInteger");
    reveal_strlit("nonPositiveInteger");
    reveal_strlit("negativeInteger");
    reveal_strlit("unsignedInt");
    reveal_strlit("unsignedLong");
    reveal_strlit("unsignedShort");
    reveal_strlit("unsignedByte");
    assert("short"@[1] == 'h');
    assert("byte"@[1] == 'y');
    assert("integer"@[0] == 'i');
    assert("decimal"@[0] == 'd');
    assert("double"@[0] == 'd');
    assert("float"@[0] == 'f');
    assert("int"@[0] == 'i');
    assert("long"@[0] == 'l');
    assert("short"@[0] == 's');
    assert("byte"@[0] == 'b');
    assert("nonNegativeInteger"@[0] == 'n');
    assert("positiveInteger"@[0] == 'p');
    assert("nonPositiveInteger"@[0] == 'n');
    assert("negativeInteger"@[0] == 'n');
    assert("unsignedInt"@[0] == 'u');
    assert("unsignedLong"@[0] == 'u');
    assert("unsignedShort"@[0] == 'u');
    assert("unsignedByte"@[0] == 'u');
}

// --- Arithmetic --------------------------------------------------------------------------

/// The number in a reply, as a value.
pub open spec fn replied(r: NumberReplyView) -> Option<Val> {
    match r {
        NumberReplyView::Number(n) => Some(Val::Num(n)),
        _ => None,
    }
}

/// Arithmetic asks for the sum, difference, product or quotient of the two numbers, in
/// their order; a division by either zero is an error.
pub proof fn law_arithmetic(a: ExprView, b: ExprView, c: Scope, x: Val, y: Val, m: u64, n: u64)
    requires
        ev(a, c) == Some(x),
        ev(b, c) == Some(y),
        counts_as(x, m),
        counts_as(y, n),
    ensures
        ev(on(BinaryOp::Plus, a, b), c) == replied((c.num)(NumberCallView::Plus(m, n))),
        ev(on(BinaryOp::Minus, a, b), c) == replied((c.num)(NumberCallView::Minus(m, n))),
        ev(on(BinaryOp::Times, a, b), c) == replied((c.num)(NumberCallView::Times(m, n))),
        n == 0 || n == SIGN_BIT ==> ev(on(BinaryOp::Divide, a, b), c) is None,
        n != 0 && n != SIGN_BIT ==> ev(on(BinaryOp::Divide, a, b), c) == replied(
            (c.num)(NumberCallView::Divide(m, n)),
        ),
{
}

/// There is no arithmetic on what is not a number.
pub proof fn law_no_arithmetic_on_texts(op: BinaryOp, a: ExprView, b: ExprView, c: Scope)
    requires
        op == BinaryOp::Plus || op == BinaryOp::Minus || op == BinaryOp::Times || op == BinaryOp::Divide,
        forall|m: u64| ev(a, c) is Some ==> !(#[trigger] counts_as(ev(a, c)->0, m)),
    ensures
        ev(on(op, a, b), c) is None,
        ev(on(op, b, a), c) is None,
{
    if let Some(x) = ev(a, c) {
        if let Some(m) = val_number(x) {
            assert(counts_as(x, m));
        }
    }
}

/// A sign in front keeps the number or gives the one of opposite value.
pub proof fn law_signs(a: ExprView, c: Scope, x: Val, m: u64)
    requires
        ev(a, c) == Some(x),
        counts_as(x, m),
    ensures
        ev(ExprView::Unary(UnaryOp::Plus, Box::new(a)), c) == Some(Val::Num(m)),
        ev(ExprView::Unary(UnaryOp::Minus, Box::new(a)), c) matches Some(Val::Num(n)) && n != m && (
        is_number(m) ==> is_number(n) && double_units(n) == -double_units(m)),
{
    if m < SIGN_BIT {
        lemma_units(m as int, 0);
    } else {
        lemma_units(m - SIGN_BIT, 0);
    }
}

// --- Functions ---------------------------------------------------------------------------

/// A call with one argument.
pub open spec fn of(f: Function, a: ExprView) -> ExprView {
    ExprView::Call(f, seq![a])
}

/// A call with two arguments.
pub open spec fn of_two(f: Function, a: ExprView, b: ExprView) -> ExprView {
    ExprView::Call(f, seq![a, b])
}

/// The value is a text: a literal with a text of its own, or an IRI.
pub open spec fn is_text(x: Val, s: Seq<char>) -> bool {
    match x {
        Val::Str(u) => u == s,
        Val::Lang(u, _) => u == s,
        Val::Typed(u, _) => u == s,
        Val::Iri(u) => u == s,
        _ => false,
    }
}

/// What the tests on texts find: `contains` a part anywhere, `strstarts` one at the
/// start, `strends` one at the end.
pub proof fn law_text_tests(a: ExprView, b: ExprView, c: Scope, x: Val, y: Val, s: Seq<char>, t: Seq<char>)
    requires
        ev(a, c) == Some(x),
        ev(b, c) == Some(y),
        is_text(x, s),
        is_text(y, t),
    ensures
        ev(of_two(Function::Contains, a, b), c) == Some(
            Val::Bool(exists|u: Seq<char>, w: Seq<char>| s == #[trigger] (u + t + w)),
        ),
        ev(of_two(Function::StrStarts, a, b), c) == Some(
            Val::Bool(exists|w: Seq<char>| s == #[trigger] (t + w)),
        ),
        ev(of_two(Function::StrEnds, a, b), c) == Some(
            Val::Bool(exists|u: Seq<char>| s == #[trigger] (u + t)),
        ),
{
    let args = seq![a, b];
    assert(args[0] == a && args[1] == b);
    if has_part(s, t) {
        let i = choose|i: int| part_at(s, t, i);
        let u = s.take(i);
        let w = s.skip(i + t.len());
        assert(s =~= u + t + w);
    }
    if exists|u: Seq<char>, w: Seq<char>| s == #[trigger] (u + t + w) {
        let (u, w) = choose|u: Seq<char>, w: Seq<char>| s == #[trigger] (u + t + w);
        assert(s.subrange(u.len() as int, u.len() as int + t.len()) =~= t);
        assert(part_at(s, t, u.len() as int));
    }
    if has_prefix(s, t) {
        assert(s =~= t + s.skip(t.len() as int));
    }
    if exists|w: Seq<char>| s == #[trigger] (t + w) {
        let w = choose|w: Seq<char>| s == #[trigger] (t + w);
        assert(s.subrange(0, t.len() as int) =~= t);
    }
    if has_suffix(s, t) {
        assert(s =~= s.take(s.len() - t.len()) + t);
    }
    if exists|u: Seq<char>| s == #[trigger] (u + t) {
        let u = choose|u: Seq<char>| s == #[trigger] (u + t);
        assert(s.subrange(s.len() - t.len(), s.len() as int) =~= t);
    }
}

/// The length of a text is the number of its characters; its capitals and small letters
/// are those that the Unicode tables give.
pub proof fn law_text_functions(a: ExprView, c: Scope, x: Val, s: Seq<char>)
    requires
        ev(a, c) == Some(x),
        is_text(x, s),
    ensures
        ev(of(Function::StrLen, a), c) == replied((c.num)(NumberCallView::Count(s.len() as u64))),
        ev(of(Function::UCase, a), c) == Some(Val::Str(uppercase(s))),
        ev(of(Function::LCase, a), c) == Some(Val::Str(lowercase(s))),
        ev(of(Function::Str, a), c) == Some(Val::Str(s)),
{
    assert(seq![a][0] == a);
}

/// The text of a value: its characters, whatever its tag or datatype; the word of a truth
/// value; the decimal form of a number.
pub proof fn law_str(a: ExprView, c: Scope, x: Val)
    requires
        ev(a, c) == Some(x),
    ensures
        ev(of(Function::Str, a), c) == Some(
            Val::Str(
                match x {
                    Val::Num(n) => match (c.num)(NumberCallView::Text(n)) {
                        NumberReplyView::Text(s) => s,
                        _ => Seq::empty(),
                    },
                    Val::Bool(true) => "true"@,
                    Val::Bool(false) => "false"@,
                    Val::Iri(s) => s,
                    Val::Blank(s) => s,
                    Val::Str(s) => s,
                    Val::Lang(s, _) => s,
                    Val::Typed(s, _) => s,
                },
            ),
        ),
{
    assert(seq![a][0] == a);
}

/// The tag and the datatype of a literal.
pub proof fn law_tag_and_datatype(a: ExprView, c: Scope, x: Val)
    requires
        ev(a, c) == Some(x),
    ensures
        ev(of(Function::Lang, a), c) == Some(
            Val::Str(
                match x {
                    Val::Lang(_, l) => l,
                    _ => Seq::empty(),
                },
            ),
        ),
        x is Iri || x is Blank <==> ev(of(Function::Datatype, a), c) is None,
        x is Num ==> ev(of(Function::Datatype, a), c) == Some(
            Val::Iri("http://www.w3.org/2001/XMLSchema#double"@),
        ),
        x is Bool ==> ev(of(Function::Datatype, a), c) == Some(
            Val::Iri("http://www.w3.org/2001/XMLSchema#boolean"@),
        ),
        x is Str ==> ev(of(Function::Datatype, a), c) == Some(
            Val::Iri("http://www.w3.org/2001/XMLSchema#string"@),
        ),
        x is Lang ==> ev(of(Function::Datatype, a), c) == Some(
            Val::Iri("http://www.w3.org/1999/02/22-rdf-syntax-ns#langString"@),
        ),
        x matches Val::Typed(_, d) ==> ev(of(Function::Datatype, a), c) == Some(Val::Iri(d)),
{
    assert(seq![a][0] == a);
}

/// The tests on kinds of terms. A term is exactly one of IRI, blank node and literal.
pub proof fn law_kind_tests(a: ExprView, c: Scope, x: Val)
    requires
        ev(a, c) == Some(x),
    ensures
        ev(of(Function::IsIri, a), c) == Some(Val::Bool(x is Iri)),
        ev(of(Function::IsBlank, a), c) == Some(Val::Bool(x is Blank)),
        ev(of(Function::IsLiteral, a), c) == Some(
            Val::Bool(x is Str || x is Num || x is Bool || x is Lang || x is Typed),
        ),
        ev(of(Function::IsNumeric, a), c) == Some(Val::Bool(x is Num)),
{
    assert(seq![a][0] == a);
}

/// A search by a pattern: the text is the first argument, the pattern the second, and the
/// letters of the third switch the case, the dot and the lines. Another letter is an
/// error.
pub proof fn law_regex(
    a: ExprView,
    b: ExprView,
    f: ExprView,
    c: Scope,
    x: Val,
    y: Val,
    z: Val,
    s: Seq<char>,
    p: Seq<char>,
    flags: Seq<char>,
)
    requires
        ev(a, c) == Some(x),
        ev(b, c) == Some(y),
        ev(f, c) == Some(z),
        is_text(x, s),
        is_text(y, p),
        is_text(z, flags),
    ensures
        ev(of_two(Function::Regex, a, b), c) == (match regex_result(p, false, false, false, s) {
            Some(found) => Some(Val::Bool(found)),
            None => None,
        }),
        ev(ExprView::Call(Function::Regex, seq![a, b, f]), c) == (if forall|i: int|
            0 <= i < flags.len() ==> seq!['i', 's', 'm'].contains(#[trigger] flags[i]) {
            match regex_result(p, flags.contains('i'), flags.contains('s'), flags.contains('m'), s) {
                Some(found) => Some(Val::Bool(found)),
                None => None,
            }
        } else {
            None
        }),
{
    let two = seq![a, b];
    let three = seq![a, b, f];
    let known = seq!['i', 's', 'm'];
    assert(two[0] == a && two[1] == b);
    assert(three[0] == a && three[1] == b && three[2] == f);
    assert(known[0] == 'i' && known[1] == 's' && known[2] == 'm');
    let none = Seq::<char>::empty();
    assert(!none.contains('i') && !none.contains('s') && !none.contains('m'));
    assert forall|ch: char| #[trigger] known.contains(ch) == crate::sparql::expr::known_flag(ch) by {
        if known.contains(ch) {
            let i = choose|i: int| 0 <= i < known.len() && known[i] == ch;
        }
    }
    assert forall|i: int| 0 <= i < flags.len() implies known.contains(#[trigger] flags[i])
        == crate::sparql::expr::known_flag(flags[i]) by {}
}

/// A function of an error is an error.
pub proof fn law_functions_of_errors(f: Function, a: ExprView, b: ExprView, c: Scope)
    requires
        ev(a, c) is None,
    ensures
        ev(of(f, a), c) is None,
        ev(of_two(f, a, b), c) is None,
{
    assert(seq![a][0] == a);
    assert(seq![a, b][0] == a);
}

/// The expression names the term: it is the term, or a variable that is bound to it.
pub open spec fn names_term(e: ExprView, c: Scope, v: Seq<char>, k: TermKind) -> bool {
    match e {
        ExprView::Known(u, t) => u == v && t == k,
        ExprView::Variable(n) => exists|i: int|
            #![trigger c.row[i]]
            is_column(c.vars, n, i) && c.row[i] != NULL_ID && c.row[i] < c.keys.len() && key_value(
                c.keys[c.row[i] as int],
            ) == v && key_kind(c.keys[c.row[i] as int]) == k,
        _ => false,
    }
}

/// Two expressions name the same term if text and type agree, where a plain literal and
/// one of the string datatype are the same.
pub proof fn law_same_term(
    a: ExprView,
    b: ExprView,
    c: Scope,
    v: Seq<char>,
    k: TermKind,
    w: Seq<char>,
    j: TermKind,
)
    requires
        c.vars.no_duplicates(),
        c.row.len() == c.vars.len(),
        names_term(a, c, v, k),
        names_term(b, c, w, j),
        k is Literal ==> k->datatype is None || k->lang is None,
        j is Literal ==> j->datatype is None || j->lang is None,
    ensures
        ev(on(BinaryOp::SameTerm, a, b), c) == Some(Val::Bool(v == w && canonical(k) == canonical(j))),
{
    lemma_named(a, c, v, k);
    lemma_named(b, c, w, j);
}

proof fn lemma_named(e: ExprView, c: Scope, v: Seq<char>, k: TermKind)
    requires
        c.vars.no_duplicates(),
        c.row.len() == c.vars.len(),
        names_term(e, c, v, k),
    ensures
        crate::sparql::expr::named_term(e, c) == Some(crate::sparql::values::term_id(v, k)),
{
    if let ExprView::Variable(n) = e {
        let i = choose|i: int|
            #![trigger c.row[i]]
            is_column(c.vars, n, i) && c.row[i] != NULL_ID && c.row[i] < c.keys.len() && key_value(
                c.keys[c.row[i] as int],
            ) == v && key_kind(c.keys[c.row[i] as int]) == k;
        crate::sparql::table_laws::lemma_place_at(c.vars, i);
    }
}

// --- Computed terms ------------------------------------------------------------------------

/// Some term has this value.
pub open spec fn is_term_value(num: Replies, v: Val) -> bool {
    exists|s: Seq<char>, k: TermKind| v == #[trigger] known_value(num, s, k)
}

/// Numbers can be written and read: the text of a number stands for it.
pub open spec fn numbers_round_trip(num: Replies) -> bool {
    forall|n: u64|
        #![trigger num(NumberCallView::Text(n))]
        num(NumberCallView::Text(n)) is Text && num(
            NumberCallView::Parse(num(NumberCallView::Text(n))->Text_0),
        ) == NumberReplyView::Number(n)
}

/// The term that is made for a value, read back, is that value.
pub proof fn law_made_term_has_the_value(num: Replies, v: Val)
    requires
        v is Typed ==> is_term_value(num, v),
        v is Num ==> numbers_round_trip(num),
    ensures
        known_value(num, val_term(num, v).0, val_term(num, v).1) == v,
{
    match v {
        Val::Bool(b) => {
            law_value_of_term(num, val_term(num, v).0, Seq::empty(), None);
            reveal_strlit("true");
            reveal_strlit("false");
            reveal_strlit("1");
            assert("true"@.len() == 4 && "false"@.len() == 5 && "1"@.len() == 1);
        },
        Val::Num(n) => {
            law_typed_literals(
                num,
                val_term(num, v).0,
                "http://www.w3.org/2001/XMLSchema#double"@,
            );
        },
        Val::Typed(s, d) => {
            let (u, k) = choose|u: Seq<char>, k: TermKind| v == #[trigger] known_value(num, u, k);
            assert(k is Literal);
            law_value_of_term(num, u, Seq::empty(), None);
            law_typed_literals(num, u, d);
            law_typed_literals(num, s, d);
        },
        _ => {},
    }
}

/// A computed number becomes a double, in the text that it is written with.
pub proof fn law_numbers_become_doubles(num: Replies, n: u64, s: Seq<char>)
    requires
        num(NumberCallView::Text(n)) == NumberReplyView::Text(s),
    ensures
        val_term(num, Val::Num(n)) == (s, typed("http://www.w3.org/2001/XMLSchema#double"@)),
{
}

/// A value that was made a term of the dictionary is found again under its identifier.
pub proof fn law_stored_term_has_the_value(num: Replies, keys: Seq<Seq<char>>, v: Val)
    requires
        v is Typed ==> is_term_value(num, v),
        v is Num ==> numbers_round_trip(num),
        encodable(val_term(num, v).0, val_term(num, v).1),
        keys.len() <= u32::MAX,
        interned(keys, val_term(num, v)).0 is Some,
    ensures
        ({
            let (id, after) = interned(keys, val_term(num, v));
            &&& keys.is_prefix_of(after)
            &&& id_value(num, after, id->0) == Some(v)
        }),
{
    let (s, k) = val_term(num, v);
    let key = term_key(s, k);
    law_key_round_trip(s, k);
    law_made_term_has_the_value(num, v);
    if keys.contains(key) {
        let i = keys.index_of(key);
        assert(keys[i] == key);
    }
    law_value_of_term(num, s, Seq::empty(), None);
}

} // verus!
