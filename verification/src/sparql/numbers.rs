//! Numbers in expressions.
//!
//! A number is the bit pattern of an IEEE double. Order, equality, sign and
//! zero are read off the bits here. Arithmetic, and the way from and to text,
//! are asked of a function that the caller hands in.

use crate::bytes::Side;
use vstd::prelude::*;

verus! {

/// A question about numbers.
#[derive(Debug)]
pub enum NumberCall {
    /// The number that a text stands for.
    Parse(String),
    Plus(u64, u64),
    Minus(u64, u64),
    Times(u64, u64),
    Divide(u64, u64),
    /// A count as a number.
    Count(u64),
    /// The text of a number.
    Text(u64),
}

#[verifier::ext_equal]
pub enum NumberCallView {
    Parse(Seq<char>),
    Plus(u64, u64),
    Minus(u64, u64),
    Times(u64, u64),
    Divide(u64, u64),
    Count(u64),
    Text(u64),
}

impl View for NumberCall {
    type V = NumberCallView;

    open spec fn view(&self) -> NumberCallView {
        match self {
            NumberCall::Parse(s) => NumberCallView::Parse(s@),
            NumberCall::Plus(a, b) => NumberCallView::Plus(*a, *b),
            NumberCall::Minus(a, b) => NumberCallView::Minus(*a, *b),
            NumberCall::Times(a, b) => NumberCallView::Times(*a, *b),
            NumberCall::Divide(a, b) => NumberCallView::Divide(*a, *b),
            NumberCall::Count(n) => NumberCallView::Count(*n),
            NumberCall::Text(n) => NumberCallView::Text(*n),
        }
    }
}

/// An answer.
#[derive(Debug)]
pub enum NumberReply {
    Number(u64),
    Text(String),
    Nothing,
}

#[verifier::ext_equal]
pub enum NumberReplyView {
    Number(u64),
    Text(Seq<char>),
    Nothing,
}

impl View for NumberReply {
    type V = NumberReplyView;

    open spec fn view(&self) -> NumberReplyView {
        match self {
            NumberReply::Number(n) => NumberReplyView::Number(*n),
            NumberReply::Text(s) => NumberReplyView::Text(s@),
            NumberReply::Nothing => NumberReplyView::Nothing,
        }
    }
}

/// What a number function answers.
pub type Replies = spec_fn(NumberCallView) -> NumberReplyView;

/// The function can answer `c` by `r`.
pub open spec fn can_reply<F: Fn(NumberCall) -> NumberReply>(
    f: F,
    c: NumberCallView,
    r: NumberReplyView,
) -> bool {
    exists|c0: NumberCall, r0: NumberReply|
        c0@ == c && r0@ == r && #[trigger] call_ensures(f, (c0,), r0)
}

/// The function takes every question and always answers it in the same way.
pub open spec fn numbers_ok<F: Fn(NumberCall) -> NumberReply>(f: F) -> bool {
    &&& forall|c: NumberCall| #[trigger] call_requires(f, (c,))
    &&& forall|c: NumberCallView, r1: NumberReplyView, r2: NumberReplyView|
        #![trigger can_reply(f, c, r1), can_reply(f, c, r2)]
        can_reply(f, c, r1) && can_reply(f, c, r2) ==> r1 == r2
}

/// The answers of a function.
pub open spec fn replies<F: Fn(NumberCall) -> NumberReply>(f: F) -> Replies {
    |c: NumberCallView| choose|r: NumberReplyView| can_reply(f, c, r)
}

/// Asks the function.
pub fn ask<F: Fn(NumberCall) -> NumberReply>(f: &F, c: NumberCall) -> (r: NumberReply)
    requires
        numbers_ok(*f),
    ensures
        r@ == replies(*f)(c@),
{
    let ghost cv = c@;
    let ghost c0 = c;
    let r: NumberReply = f(c);
    proof {
        assert(call_ensures(*f, (c0,), r));
        assert(can_reply(*f, cv, r@));
        let w = choose|r: NumberReplyView| can_reply(*f, cv, r);
        assert(can_reply(*f, cv, w));
    }
    r
}

/// The number in an answer.
pub open spec fn number_in(r: NumberReplyView) -> Option<u64> {
    match r {
        NumberReplyView::Number(n) => Some(n),
        _ => None,
    }
}

/// The text in an answer.
pub open spec fn text_in(r: NumberReplyView) -> Seq<char> {
    match r {
        NumberReplyView::Text(s) => s,
        _ => Seq::empty(),
    }
}

pub fn ask_number<F: Fn(NumberCall) -> NumberReply>(f: &F, c: NumberCall) -> (r: Option<u64>)
    requires
        numbers_ok(*f),
    ensures
        r == number_in(replies(*f)(c@)),
{
    match ask(f, c) {
        NumberReply::Number(n) => Some(n),
        _ => None,
    }
}

pub fn ask_text<F: Fn(NumberCall) -> NumberReply>(f: &F, n: u64) -> (r: String)
    requires
        numbers_ok(*f),
    ensures
        r@ == text_in(replies(*f)(NumberCallView::Text(n))),
{
    match ask(f, NumberCall::Text(n)) {
        NumberReply::Text(s) => s,
        _ => String::new(),
    }
}

// --- What the bits say ---------------------------------------------------------

pub const SIGN_BIT: u64 = 0x8000_0000_0000_0000;

/// The bits of infinity; larger magnitudes are not numbers.
pub const INFINITY_BITS: u64 = 0x7FF0_0000_0000_0000;

/// The bits of one.
pub const ONE_BITS: u64 = 0x3FF0_0000_0000_0000;

/// The bits without the sign.
pub open spec fn magnitude(n: u64) -> u64 {
    if n >= SIGN_BIT {
        (n - SIGN_BIT) as u64
    } else {
        n
    }
}

pub open spec fn is_nan(n: u64) -> bool {
    magnitude(n) > INFINITY_BITS
}

pub open spec fn is_zero(n: u64) -> bool {
    magnitude(n) == 0
}

/// Position in the total order: negative numbers by falling magnitude, then the
/// others by rising magnitude.
pub open spec fn total_rank(n: u64) -> u64 {
    if n >= SIGN_BIT {
        (u64::MAX - n) as u64
    } else {
        (n + SIGN_BIT) as u64
    }
}

/// The number with the other sign.
pub open spec fn negated(n: u64) -> u64 {
    if n >= SIGN_BIT {
        (n - SIGN_BIT) as u64
    } else {
        (n + SIGN_BIT) as u64
    }
}

/// Equal numbers: the zeros are equal, and nothing is equal to what is not a
/// number.
pub open spec fn number_equal(a: u64, b: u64) -> bool {
    !is_nan(a) && !is_nan(b) && (a == b || (is_zero(a) && is_zero(b)))
}

/// How two numbers stand to each other; nothing if one is not a number.
pub open spec fn number_side(a: u64, b: u64) -> Option<Side> {
    if is_nan(a) || is_nan(b) {
        None
    } else if number_equal(a, b) {
        Some(Side::Same)
    } else if total_rank(a) < total_rank(b) {
        Some(Side::Before)
    } else {
        Some(Side::After)
    }
}

/// The number of a truth value.
pub open spec fn flag_number(b: bool) -> u64 {
    if b {
        ONE_BITS
    } else {
        0
    }
}

pub fn bits_magnitude(n: u64) -> (m: u64)
    ensures
        m == magnitude(n),
{
    if n >= SIGN_BIT {
        n - SIGN_BIT
    } else {
        n
    }
}

pub fn rank_of(n: u64) -> (r: u64)
    ensures
        r == total_rank(n),
{
    if n >= SIGN_BIT {
        u64::MAX - n
    } else {
        n + SIGN_BIT
    }
}

pub fn negate(n: u64) -> (r: u64)
    ensures
        r == negated(n),
{
    if n >= SIGN_BIT {
        n - SIGN_BIT
    } else {
        n + SIGN_BIT
    }
}

pub fn numbers_equal(a: u64, b: u64) -> (r: bool)
    ensures
        r == number_equal(a, b),
{
    let ma: u64 = bits_magnitude(a);
    let mb: u64 = bits_magnitude(b);
    ma <= INFINITY_BITS && mb <= INFINITY_BITS && (a == b || (ma == 0 && mb == 0))
}

pub fn compare_numbers(a: u64, b: u64) -> (r: Option<Side>)
    ensures
        r == number_side(a, b),
{
    if bits_magnitude(a) > INFINITY_BITS || bits_magnitude(b) > INFINITY_BITS {
        None
    } else if numbers_equal(a, b) {
        Some(Side::Same)
    } else if rank_of(a) < rank_of(b) {
        Some(Side::Before)
    } else {
        Some(Side::After)
    }
}

/// The total order tells all bit patterns apart.
pub proof fn law_total_rank_injective(a: u64, b: u64)
    ensures
        total_rank(a) == total_rank(b) <==> a == b,
{
}

/// A number and its negation are in opposite order.
pub proof fn law_negation_reverses(a: u64, b: u64)
    requires
        !is_nan(a),
        !is_nan(b),
    ensures
        number_side(a, b) == Some(Side::Before) <==> number_side(negated(a), negated(b)) == Some(
            Side::After,
        ),
{
}

} // verus!
