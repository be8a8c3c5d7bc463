//! Text as sequences of characters.

use crate::bytes::Side;
use vstd::prelude::*;

verus! {

/// `String::push` appends one character.
pub assume_specification[ String::push ](s: &mut String, c: char)
    ensures
        final(s)@ == old(s)@.push(c),
;

/// `String::push_str` appends a string slice.
pub assume_specification[ String::push_str ](s: &mut String, t: &str)
    ensures
        final(s)@ == old(s)@ + t@,
;

/// The characters of a string, in order.
pub fn chars_of(s: &str) -> (v: Vec<char>)
    ensures
        v@ == s@,
{
    let mut v: Vec<char> = Vec::new();
    for c in it: s.chars()
        invariant
            v@ == it.seq().take(it.index() as int),
            it.seq() == s@,
    {
        v.push(c);
    }
    v
}

/// The string of the given characters.
pub fn string_of(cs: &[char]) -> (s: String)
    ensures
        s@ == cs@,
{
    let mut s: String = String::new();
    let mut i: usize = 0;
    while i < cs.len()
        invariant
            i <= cs@.len(),
            s@ == cs@.take(i as int),
        decreases cs@.len() - i,
    {
        s.push(cs[i]);
        i += 1;
        assert(cs@.take(i as int) =~= cs@.take(i - 1).push(cs@[i - 1]));
    }
    assert(cs@.take(i as int) =~= cs@);
    s
}

/// `char::from_u32`: the character of a Unicode scalar value, nothing for the
/// surrogate range and beyond the last code point.
pub assume_specification[ char::from_u32 ](i: u32) -> (r: Option<char>)
    ensures
        r == scalar_char(i as int),
;

/// The character of a code point, if the code point is a scalar value.
pub open spec fn scalar_char(i: int) -> Option<char> {
    if 0 <= i < 0xD800 || 0xE000 <= i <= 0x10FFFF {
        Some(i as char)
    } else {
        None
    }
}

/// Unicode white space.
pub open spec fn white(c: char) -> bool {
    ||| 0x09 <= c as int <= 0x0D
    ||| c as int == 0x20
    ||| c as int == 0x85
    ||| c as int == 0xA0
    ||| c as int == 0x1680
    ||| 0x2000 <= c as int <= 0x200A
    ||| c as int == 0x2028
    ||| c as int == 0x2029
    ||| c as int == 0x202F
    ||| c as int == 0x205F
    ||| c as int == 0x3000
}

pub fn is_white(c: char) -> (r: bool)
    ensures
        r == white(c),
{
    let n: u32 = c as u32;
    (0x09 <= n && n <= 0x0D) || n == 0x20 || n == 0x85 || n == 0xA0 || n == 0x1680 || (0x2000 <= n
        && n <= 0x200A) || n == 0x2028 || n == 0x2029 || n == 0x202F || n == 0x205F || n == 0x3000
}

/// The code point of a character.
pub fn code_of(c: char) -> (n: u32)
    ensures
        n == c as int,
{
    c as u32
}

/// The value of a hexadecimal digit.
pub open spec fn hex_value(c: char) -> Option<int> {
    if '0' <= c <= '9' {
        Some(c as int - '0' as int)
    } else if 'a' <= c <= 'f' {
        Some(c as int - 'a' as int + 10)
    } else if 'A' <= c <= 'F' {
        Some(c as int - 'A' as int + 10)
    } else {
        None
    }
}

pub fn hex_digit(c: char) -> (r: Option<u32>)
    ensures
        match r {
            Some(d) => hex_value(c) == Some(d as int) && d < 16,
            None => hex_value(c) is None,
        },
{
    let n: u32 = c as u32;
    if '0' <= c && c <= '9' {
        Some(n - 48)
    } else if 'a' <= c && c <= 'f' {
        Some(n - 97 + 10)
    } else if 'A' <= c && c <= 'F' {
        Some(n - 65 + 10)
    } else {
        None
    }
}

/// The text without leading white space.
pub open spec fn skip_white(s: Seq<char>) -> Seq<char>
    decreases s.len(),
{
    if s.len() > 0 && white(s[0]) {
        skip_white(s.drop_first())
    } else {
        s
    }
}

/// The text without trailing white space.
pub open spec fn drop_white_end(s: Seq<char>) -> Seq<char>
    decreases s.len(),
{
    if s.len() > 0 && white(s.last()) {
        drop_white_end(s.drop_last())
    } else {
        s
    }
}

/// The text without white space at either end.
pub open spec fn trimmed(s: Seq<char>) -> Seq<char> {
    drop_white_end(skip_white(s))
}

/// Position of the first non-white character at or after `pos`.
pub fn white_end(cs: &[char], pos: usize) -> (r: usize)
    requires
        pos <= cs@.len(),
    ensures
        pos <= r <= cs@.len(),
        skip_white(cs@.skip(pos as int)) == cs@.skip(r as int),
        r < cs@.len() ==> !white(cs@[r as int]),
{
    let mut i: usize = pos;
    while i < cs.len() && is_white(cs[i])
        invariant
            pos <= i <= cs@.len(),
            skip_white(cs@.skip(pos as int)) == skip_white(cs@.skip(i as int)),
        decreases cs@.len() - i,
    {
        assert(cs@.skip(i as int).drop_first() =~= cs@.skip(i + 1));
        i += 1;
    }
    i
}

/// The slice without white space at either end.
pub fn trim(cs: &[char]) -> (r: &[char])
    ensures
        r@ == trimmed(cs@),
{
    let start: usize = white_end(cs, 0);
    let mut end: usize = cs.len();
    assert(cs@.skip(0) =~= cs@);
    assert(cs@.subrange(start as int, end as int) =~= cs@.skip(start as int));
    while end > start && is_white(cs[end - 1])
        invariant
            start <= end <= cs@.len(),
            drop_white_end(cs@.subrange(start as int, end as int)) == trimmed(cs@),
        decreases end,
    {
        assert(cs@.subrange(start as int, end as int).drop_last() =~= cs@.subrange(
            start as int,
            end - 1,
        ));
        end -= 1;
    }
    vstd::slice::slice_subrange(cs, start, end)
}

/// Whether the characters at `pos` begin with those of `lit`.
pub fn has_prefix_at(cs: &[char], pos: usize, lit: &str) -> (r: bool)
    requires
        pos <= cs@.len(),
    ensures
        r == lit@.is_prefix_of(cs@.skip(pos as int)),
{
    let p: Vec<char> = chars_of(lit);
    let n: usize = cs.len();
    if n - pos < p.len() {
        return false;
    }
    let mut i: usize = 0;
    while i < p.len()
        invariant
            i <= p@.len(),
            n == cs@.len(),
            pos + p@.len() <= n,
            p@ == lit@,
            forall|k: int| 0 <= k < i ==> p@[k] == cs@[pos + k],
        decreases p@.len() - i,
    {
        if cs[pos + i] != p[i] {
            proof {
                let rest = cs@.skip(pos as int);
                assert(rest[i as int] != lit@[i as int]);
                assert(rest.subrange(0, lit@.len() as int)[i as int] == rest[i as int]);
            }
            return false;
        }
        i += 1;
    }
    proof {
        let rest = cs@.skip(pos as int);
        assert(rest.subrange(0, lit@.len() as int) =~= lit@);
    }
    true
}

/// Whether two strings hold the same text.
pub fn same_text(a: &str, b: &str) -> (r: bool)
    ensures
        r == (a@ == b@),
{
    let x: &[u8] = a.as_bytes();
    let y: &[u8] = b.as_bytes();
    proof {
        vstd::utf8::encode_utf8_decode_utf8(a@);
        vstd::utf8::encode_utf8_decode_utf8(b@);
    }
    if x.len() != y.len() {
        return false;
    }
    let mut i: usize = 0;
    while i < x.len()
        invariant
            i <= x@.len(),
            x@.len() == y@.len(),
            x@ == vstd::utf8::encode_utf8(a@),
            y@ == vstd::utf8::encode_utf8(b@),
            forall|k: int| 0 <= k < i ==> x@[k] == y@[k],
        decreases x@.len() - i,
    {
        if x[i] != y[i] {
            return false;
        }
        i += 1;
    }
    assert(x@ =~= y@);
    true
}

/// The digit of a number below ten.
pub open spec fn digit_char(d: int) -> char {
    ('0' as int + d) as char
}

/// A number in decimal digits.
pub open spec fn decimal(n: nat) -> Seq<char>
    decreases n,
{
    if n < 10 {
        seq![digit_char(n as int)]
    } else {
        decimal(n / 10).push(digit_char((n % 10) as int))
    }
}

/// Writes a number in decimal digits.
pub fn decimal_text(n: u64) -> (s: String)
    ensures
        s@ == decimal(n as nat),
    decreases n,
{
    if n < 10 {
        let mut s: String = String::new();
        s.push(digit_of(n as u8));
        assert(s@ =~= decimal(n as nat));
        s
    } else {
        let mut s: String = decimal_text(n / 10);
        s.push(digit_of((n % 10) as u8));
        s
    }
}

fn digit_of(d: u8) -> (c: char)
    requires
        d < 10,
    ensures
        c == digit_char(d as int),
{
    (48 + d) as char
}

/// The number that decimal digits stand for; nothing if there is another
/// character.
pub open spec fn digits_value(s: Seq<char>) -> Option<nat>
    decreases s.len(),
{
    if s.len() == 0 {
        Some(0)
    } else {
        match digits_value(s.drop_last()) {
            Some(n) => if '0' <= s.last() <= '9' {
                Some(10 * n + (s.last() as int - '0' as int) as nat)
            } else {
                None
            },
            None => None,
        }
    }
}

/// A number written in decimal, with an optional plus sign, below the limit of
/// the machine.
pub open spec fn parsed_usize(s: Seq<char>) -> Option<usize> {
    let digits = if s.len() > 0 && s[0] == '+' {
        s.skip(1)
    } else {
        s
    };
    if digits.len() == 0 {
        None
    } else {
        match digits_value(digits) {
            Some(n) => if n <= usize::MAX {
                Some(n as usize)
            } else {
                None
            },
            None => None,
        }
    }
}

proof fn lemma_digits_prefix(s: Seq<char>, i: int)
    requires
        0 <= i <= s.len(),
    ensures
        digits_value(s) is Some ==> digits_value(s.take(i)) is Some && digits_value(s.take(i))->0
            <= digits_value(s)->0,
    decreases s.len() - i,
{
    if i == s.len() {
        assert(s.take(i) =~= s);
    } else {
        lemma_digits_prefix(s, i + 1);
        assert(s.take(i + 1).drop_last() =~= s.take(i));
    }
}

/// Reads a number written in decimal.
pub fn parse_usize(text: &str) -> (r: Option<usize>)
    ensures
        r == parsed_usize(text@),
{
    let cs: Vec<char> = chars_of(text);
    let n: usize = cs.len();
    let start: usize = if n > 0 && cs[0] == '+' {
        1
    } else {
        0
    };
    let ghost digits = if start == 1 {
        cs@.skip(1)
    } else {
        cs@
    };
    assert(digits =~= cs@.skip(start as int));
    if start == n {
        return None;
    }
    let mut value: usize = 0;
    let mut i: usize = start;
    assert(digits.take(0) =~= Seq::<char>::empty());
    while i < n
        invariant
            start <= i <= n,
            n == cs@.len(),
            digits == cs@.skip(start as int),
            digits_value(digits.take(i - start)) == Some(value as nat),
            start < n,
            parsed_usize(text@) == (match digits_value(digits) {
                Some(m) => if m <= usize::MAX {
                    Some(m as usize)
                } else {
                    None
                },
                None => None,
            }),
        decreases n - i,
    {
        let c: char = cs[i];
        proof {
            assert(digits.take(i - start + 1).drop_last() =~= digits.take(i - start));
            assert(digits.take(i - start + 1).last() == c);
            lemma_digits_prefix(digits, i - start + 1);
        }
        if c < '0' || c > '9' {
            return None;
        }
        let d: usize = (c as u32 - 48) as usize;
        if value > usize::MAX / 10 {
            return None;
        }
        let tens: usize = value * 10;
        if d > usize::MAX - tens {
            return None;
        }
        value = tens + d;
        i += 1;
    }
    assert(digits.take(i - start) =~= digits);
    Some(value)
}

/// A number in decimal digits is read back.
pub proof fn law_decimal_reads_back(n: nat)
    ensures
        digits_value(decimal(n)) == Some(n),
        decimal(n).len() > 0,
        forall|i: int| 0 <= i < decimal(n).len() ==> '0' <= #[trigger] decimal(n)[i] <= '9',
        n <= usize::MAX ==> parsed_usize(decimal(n)) == Some(n as usize),
    decreases n,
{
    if n < 10 {
        let s = decimal(n);
        assert(s.drop_last() =~= Seq::<char>::empty());
        reveal_with_fuel(digits_value, 2);
    } else {
        law_decimal_reads_back(n / 10);
        let s = decimal(n);
        assert(s.drop_last() =~= decimal(n / 10));
        assert(s.last() == digit_char((n % 10) as int));
    }
    assert(decimal(n)[0] != '+');
}

// --- Order -------------------------------------------------------------------

/// Lexicographic order by code points, which is also the order of the UTF-8
/// forms.
pub open spec fn text_side(a: Seq<char>, b: Seq<char>) -> Side
    decreases a.len(),
{
    if a.len() == 0 {
        if b.len() == 0 {
            Side::Same
        } else {
            Side::Before
        }
    } else if b.len() == 0 {
        Side::After
    } else if a[0] < b[0] {
        Side::Before
    } else if b[0] < a[0] {
        Side::After
    } else {
        text_side(a.drop_first(), b.drop_first())
    }
}

/// Only equal texts stand at the same place, and the order is antisymmetric.
pub proof fn lemma_text_side(a: Seq<char>, b: Seq<char>)
    ensures
        text_side(a, b) == Side::Same <==> a == b,
        text_side(a, b) == Side::Before <==> text_side(b, a) == Side::After,
        text_side(a, b) == Side::After <==> text_side(b, a) == Side::Before,
    decreases a.len(),
{
    if a.len() > 0 && b.len() > 0 && a[0] == b[0] {
        lemma_text_side(a.drop_first(), b.drop_first());
        assert(a =~= seq![a[0]] + a.drop_first());
        assert(b =~= seq![b[0]] + b.drop_first());
    } else if a.len() == 0 && b.len() == 0 {
        assert(a =~= b);
    }
}

pub proof fn lemma_text_side_transitive(a: Seq<char>, b: Seq<char>, c: Seq<char>)
    requires
        text_side(a, b) == Side::Before,
        text_side(b, c) == Side::Before,
    ensures
        text_side(a, c) == Side::Before,
    decreases a.len(),
{
    if a.len() > 0 && a[0] == b[0] && b[0] == c[0] {
        lemma_text_side_transitive(a.drop_first(), b.drop_first(), c.drop_first());
    }
}

/// Text `a` comes before text `b` by code points: they agree up to some place, and
/// there `a` ends while `b` goes on, or has the smaller character.
pub open spec fn precedes(a: Seq<char>, b: Seq<char>) -> bool {
    exists|k: int| #[trigger] parts_at(a, b, k)
}

/// The texts agree before place `k`, where `a` ends first or has the smaller
/// character.
pub open spec fn parts_at(a: Seq<char>, b: Seq<char>, k: int) -> bool {
    &&& 0 <= k <= a.len()
    &&& k < b.len()
    &&& forall|i: int| 0 <= i < k ==> #[trigger] a[i] == b[i]
    &&& k == a.len() || (a[k] as int) < (b[k] as int)
}

/// Texts are compared by code points: the first character that differs decides, and
/// a text comes after every proper prefix of it.
pub proof fn law_text_order(a: Seq<char>, b: Seq<char>)
    ensures
        text_side(a, b) == Side::Before <==> precedes(a, b),
        text_side(a, b) == Side::After <==> precedes(b, a),
        text_side(a, b) == Side::Same <==> a == b,
{
    lemma_text_side(a, b);
    lemma_before(a, b);
    lemma_before(b, a);
}

proof fn lemma_before(a: Seq<char>, b: Seq<char>)
    ensures
        text_side(a, b) == Side::Before <==> precedes(a, b),
    decreases a.len(),
{
    if a.len() > 0 && b.len() > 0 && a[0] == b[0] {
        let x = a.drop_first();
        let y = b.drop_first();
        lemma_before(x, y);
        if precedes(x, y) {
            let k = choose|k: int| #[trigger] parts_at(x, y, k);
            assert forall|i: int| 0 <= i < k + 1 implies #[trigger] a[i] == b[i] by {
                if i > 0 {
                    assert(x[i - 1] == y[i - 1]);
                }
            }
            assert(parts_at(a, b, k + 1));
        }
        if precedes(a, b) {
            let k = choose|k: int| #[trigger] parts_at(a, b, k);
            assert(k > 0);
            assert forall|i: int| 0 <= i < k - 1 implies #[trigger] x[i] == y[i] by {
                assert(a[i + 1] == b[i + 1]);
            }
            assert(parts_at(x, y, k - 1));
        }
    } else {
        if text_side(a, b) == Side::Before {
            assert(parts_at(a, b, 0));
        }
        if precedes(a, b) {
            let k = choose|k: int| #[trigger] parts_at(a, b, k);
            if k > 0 {
                assert(a[0] == b[0]);
            }
        }
    }
}

/// Compares two texts.
pub fn compare_text(a: &str, b: &str) -> (r: Side)
    ensures
        r == text_side(a@, b@),
{
    let x: Vec<char> = chars_of(a);
    let y: Vec<char> = chars_of(b);
    let mut i: usize = 0;
    assert(x@.skip(0) =~= x@);
    assert(y@.skip(0) =~= y@);
    while i < x.len() && i < y.len()
        invariant
            i <= x@.len(),
            i <= y@.len(),
            text_side(a@, b@) == text_side(x@.skip(i as int), y@.skip(i as int)),
        decreases x@.len() - i,
    {
        let c: char = x[i];
        let d: char = y[i];
        if c < d {
            return Side::Before;
        }
        if d < c {
            return Side::After;
        }
        assert(x@.skip(i as int).drop_first() =~= x@.skip(i + 1));
        assert(y@.skip(i as int).drop_first() =~= y@.skip(i + 1));
        i += 1;
    }
    if i < x.len() {
        Side::After
    } else if i < y.len() {
        Side::Before
    } else {
        Side::Same
    }
}

// --- Parts -------------------------------------------------------------------

/// The text has `part` at position `i`.
pub open spec fn part_at(s: Seq<char>, part: Seq<char>, i: int) -> bool {
    0 <= i && i + part.len() <= s.len() && s.subrange(i, i + part.len()) == part
}

pub open spec fn has_prefix(s: Seq<char>, part: Seq<char>) -> bool {
    part_at(s, part, 0)
}

pub open spec fn has_suffix(s: Seq<char>, part: Seq<char>) -> bool {
    part_at(s, part, s.len() - part.len())
}

pub open spec fn has_part(s: Seq<char>, part: Seq<char>) -> bool {
    exists|i: int| part_at(s, part, i)
}

/// Whether the characters at `i` are those of `part`.
pub(crate) fn is_part_at(cs: &Vec<char>, part: &Vec<char>, i: usize) -> (r: bool)
    requires
        i + part@.len() <= cs@.len(),
    ensures
        r == part_at(cs@, part@, i as int),
{
    let n: usize = cs.len();
    let mut k: usize = 0;
    while k < part.len()
        invariant
            k <= part@.len(),
            n == cs@.len(),
            i + part@.len() <= n,
            forall|m: int| 0 <= m < k ==> cs@[i + m] == #[trigger] part@[m],
        decreases part@.len() - k,
    {
        if cs[i + k] != part[k] {
            assert(cs@.subrange(i as int, i + part@.len())[k as int] != part@[k as int]);
            return false;
        }
        k += 1;
    }
    assert(cs@.subrange(i as int, i + part@.len()) =~= part@);
    true
}

pub fn starts_with_text(s: &str, part: &str) -> (r: bool)
    ensures
        r == has_prefix(s@, part@),
{
    let cs: Vec<char> = chars_of(s);
    let ps: Vec<char> = chars_of(part);
    if ps.len() > cs.len() {
        return false;
    }
    is_part_at(&cs, &ps, 0)
}

pub fn ends_with_text(s: &str, part: &str) -> (r: bool)
    ensures
        r == has_suffix(s@, part@),
{
    let cs: Vec<char> = chars_of(s);
    let ps: Vec<char> = chars_of(part);
    if ps.len() > cs.len() {
        return false;
    }
    is_part_at(&cs, &ps, cs.len() - ps.len())
}

pub fn contains_text(s: &str, part: &str) -> (r: bool)
    ensures
        r == has_part(s@, part@),
{
    let cs: Vec<char> = chars_of(s);
    let ps: Vec<char> = chars_of(part);
    if ps.len() > cs.len() {
        return false;
    }
    let last: usize = cs.len() - ps.len();
    let mut i: usize = 0;
    while i <= last
        invariant
            last == cs@.len() - ps@.len(),
            i <= last + 1,
            cs@ == s@,
            ps@ == part@,
            forall|k: int| 0 <= k < i ==> !part_at(cs@, ps@, k),
        decreases last + 1 - i,
    {
        if is_part_at(&cs, &ps, i) {
            return true;
        }
        if i == last {
            assert(forall|k: int| part_at(s@, part@, k) ==> 0 <= k <= last);
            return false;
        }
        i += 1;
    }
    false
}

/// The number of characters.
pub fn text_len(s: &str) -> (n: usize)
    ensures
        n == s@.len(),
{
    let cs: Vec<char> = chars_of(s);
    cs.len()
}

/// What `str::to_uppercase` gives.
pub uninterp spec fn uppercase(s: Seq<char>) -> Seq<char>;

/// `str::to_uppercase`: the text in capitals, by the Unicode tables.
#[verifier::external_body]
pub(crate) fn to_upper(s: &str) -> (r: String)
    ensures
        r@ == uppercase(s@),
{
    s.to_uppercase()
}

/// What `str::to_lowercase` gives.
pub uninterp spec fn lowercase(s: Seq<char>) -> Seq<char>;

/// `str::to_lowercase`: the text in small letters, by the Unicode tables.
#[verifier::external_body]
pub(crate) fn to_lower(s: &str) -> (r: String)
    ensures
        r@ == lowercase(s@),
{
    s.to_lowercase()
}

/// A copy of a text.
pub(crate) fn owned(s: &str) -> (r: String)
    ensures
        r@ == s@,
{
    let mut r: String = String::new();
    r.push_str(s);
    assert(r@ =~= s@);
    r
}

} // verus!
