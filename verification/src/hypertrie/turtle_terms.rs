//! Turtle: white space, names, strings, numbers and terms.
//!
//! A position is an index into the characters of the document. Every function
//! says what stands at a position and where it ends, or which error the document
//! has there.

use crate::hypertrie::dictionary::{plain, tagged, typed, TermKind, TermType};
use crate::hypertrie::export::{ParsedTerm, TermText};
use crate::text::{
    chars_of, code_of, contains_text, decimal, decimal_text, has_part, has_prefix, hex_digit,
    hex_value, is_white, owned, part_at, same_text, scalar_char, starts_with_text, string_of, white,
};
use vstd::prelude::*;

verus! {

// --- Errors ----------------------------------------------------------------------------

/// The number of line breaks before a position.
pub open spec fn breaks(cs: Seq<char>, pos: int) -> nat
    decreases pos,
{
    if pos <= 0 {
        0
    } else if pos <= cs.len() && cs[pos - 1] == '\n' {
        breaks(cs, pos - 1) + 1
    } else {
        breaks(cs, pos - 1)
    }
}

/// An error with the line it is on.
pub open spec fn error_at(cs: Seq<char>, pos: int, msg: Seq<char>) -> Seq<char> {
    "line "@ + decimal(breaks(cs, pos) + 1) + ": "@ + msg
}

pub(crate) fn fail(cs: &[char], pos: usize, msg: &str) -> (e: String)
    requires
        pos <= cs@.len(),
    ensures
        e@ == error_at(cs@, pos as int, msg@),
{
    let mut n: u64 = 0;
    let mut i: usize = 0;
    while i < pos
        invariant
            i <= pos <= cs@.len(),
            n == breaks(cs@, i as int),
            n <= i,
        decreases pos - i,
    {
        if cs[i] == '\n' {
            n = n + 1;
        }
        i += 1;
    }
    let mut e: String = String::new();
    e.push_str("line ");
    proof {
        assert(breaks(cs@, pos as int) == n);
    }
    let line: String = if n < u64::MAX {
        decimal_text(n + 1)
    } else {
        decimal_big(n)
    };
    e.push_str(line.as_str());
    e.push_str(": ");
    e.push_str(msg);
    assert(e@ =~= error_at(cs@, pos as int, msg@));
    e
}

/// The number after the greatest 64-bit number, in decimal digits.
fn decimal_big(n: u64) -> (s: String)
    requires
        n == u64::MAX,
    ensures
        s@ == decimal((n + 1) as nat),
{
    let mut s: String = decimal_text(1844674407370955161);
    s.push('6');
    proof {
        assert((u64::MAX + 1) / 10 == 1844674407370955161);
        assert((u64::MAX + 1) % 10 == 6);
        assert(crate::text::digit_char(6) == '6');
    }
    s
}

// --- White space and names --------------------------------------------------------------

/// Where the white space from `pos` on ends.
pub open spec fn white_to(cs: Seq<char>, pos: int) -> int
    decreases cs.len() - pos,
{
    if 0 <= pos < cs.len() && white(cs[pos]) {
        white_to(cs, pos + 1)
    } else {
        pos
    }
}

/// Where the line from `pos` on ends.
pub open spec fn line_to(cs: Seq<char>, pos: int) -> int
    decreases cs.len() - pos,
{
    if 0 <= pos < cs.len() && cs[pos] != '\n' {
        line_to(cs, pos + 1)
    } else {
        pos
    }
}

/// Whether the character at `pos` is `c`.
pub open spec fn at(cs: Seq<char>, pos: int, c: char) -> bool {
    0 <= pos < cs.len() && cs[pos] == c
}

pub proof fn lemma_ends(cs: Seq<char>, pos: int)
    requires
        0 <= pos <= cs.len(),
    ensures
        pos <= white_to(cs, pos) <= cs.len(),
        pos <= line_to(cs, pos) <= cs.len(),
        pos < cs.len() && cs[pos] != '\n' ==> pos < line_to(cs, pos),
    decreases cs.len() - pos,
{
    if pos < cs.len() {
        lemma_ends(cs, pos + 1);
    }
}

/// Where the white space and the comments from `pos` on end.
pub open spec fn space_to(cs: Seq<char>, pos: int) -> int
    decreases cs.len() - pos,
{
    let p = white_to(cs, pos);
    let q = line_to(cs, p);
    if at(cs, p, '#') && pos < q <= cs.len() {
        space_to(cs, q)
    } else {
        p
    }
}

/// Skips white space and comments.
pub(crate) fn skip_space(cs: &[char], pos: usize) -> (r: usize)
    requires
        pos <= cs@.len(),
    ensures
        r == space_to(cs@, pos as int),
        pos <= r <= cs@.len(),
{
    let n: usize = cs.len();
    let mut i: usize = pos;
    loop
        invariant
            n == cs@.len(),
            pos <= i <= n,
            space_to(cs@, pos as int) == space_to(cs@, i as int),
        decreases n - i,
    {
        let ghost start = i;
        while i < n && is_white(cs[i])
            invariant
                n == cs@.len(),
                pos <= i <= n,
                start <= i,
                white_to(cs@, start as int) == white_to(cs@, i as int),
            decreases n - i,
        {
            i += 1;
        }
        assert(white_to(cs@, start as int) == i);
        if i < n && cs[i] == '#' {
            let ghost p = i;
            proof {
                lemma_ends(cs@, p as int);
            }
            while i < n && cs[i] != '\n'
                invariant
                    n == cs@.len(),
                    pos <= i <= n,
                    p <= i,
                    line_to(cs@, p as int) == line_to(cs@, i as int),
                decreases n - i,
            {
                i += 1;
            }
            assert(line_to(cs@, p as int) == i);
        } else {
            return i;
        }
    }
}

/// Letters and digits of the Latin alphabet without accents.
pub open spec fn ascii_alnum(c: char) -> bool {
    ('0' <= c && c <= '9') || ascii_letter(c)
}

pub open spec fn ascii_letter(c: char) -> bool {
    ('a' <= c && c <= 'z') || ('A' <= c && c <= 'Z')
}

/// What a prefix or the label of a blank node consists of.
pub open spec fn name_char(c: char) -> bool {
    ascii_alnum(c) || c == '_' || c == '-' || c == '.' || (c as int) >= 0x80
}

/// What a prefix begins with.
pub open spec fn name_start_char(c: char) -> bool {
    ascii_letter(c) || (c as int) >= 0x80
}

/// What the local part of a name consists of.
pub open spec fn local_char(c: char) -> bool {
    name_char(c) || c == '%' || c == ':'
}

/// What stands behind a backslash in a local part.
pub open spec fn local_escapable(c: char) -> bool {
    c == '_' || c == '~' || c == '.' || c == '-' || c == '!' || c == '$' || c == '&' || c == '\''
        || c == '(' || c == ')' || c == '*' || c == '+' || c == ',' || c == ';' || c == '=' || c == '/'
        || c == '?' || c == '#' || c == '@' || c == '%'
}

fn is_ascii_letter(c: char) -> (r: bool)
    ensures
        r == ascii_letter(c),
{
    ('a' <= c && c <= 'z') || ('A' <= c && c <= 'Z')
}

fn is_ascii_alnum(c: char) -> (r: bool)
    ensures
        r == ascii_alnum(c),
{
    ('0' <= c && c <= '9') || is_ascii_letter(c)
}

pub(crate) fn is_name_char(c: char) -> (r: bool)
    ensures
        r == name_char(c),
{
    is_ascii_alnum(c) || c == '_' || c == '-' || c == '.' || code_of(c) >= 0x80
}

pub(crate) fn is_name_start_char(c: char) -> (r: bool)
    ensures
        r == name_start_char(c),
{
    is_ascii_letter(c) || code_of(c) >= 0x80
}

fn is_local_char(c: char) -> (r: bool)
    ensures
        r == local_char(c),
{
    is_name_char(c) || c == '%' || c == ':'
}

fn is_local_escapable(c: char) -> (r: bool)
    ensures
        r == local_escapable(c),
{
    c == '_' || c == '~' || c == '.' || c == '-' || c == '!' || c == '$' || c == '&' || c == '\''
        || c == '(' || c == ')' || c == '*' || c == '+' || c == ',' || c == ';' || c == '=' || c == '/'
        || c == '?' || c == '#' || c == '@' || c == '%'
}

/// Where the name characters from `pos` on end.
pub open spec fn name_to(cs: Seq<char>, pos: int) -> int
    decreases cs.len() - pos,
{
    if 0 <= pos < cs.len() && name_char(cs[pos]) {
        name_to(cs, pos + 1)
    } else {
        pos
    }
}

/// Dots at the end do not belong to a name.
pub open spec fn without_dots(cs: Seq<char>, pos: int, end: int) -> int
    decreases end - pos,
{
    if pos < end <= cs.len() && cs[end - 1] == '.' {
        without_dots(cs, pos, end - 1)
    } else {
        end
    }
}

/// Where the name from `pos` on ends.
pub open spec fn name_end(cs: Seq<char>, pos: int) -> int {
    without_dots(cs, pos, name_to(cs, pos))
}

/// The end of a name.
fn find_name_end(cs: &[char], pos: usize) -> (r: usize)
    requires
        pos <= cs@.len(),
    ensures
        r == name_end(cs@, pos as int),
        pos <= r <= cs@.len(),
{
    let n: usize = cs.len();
    let mut i: usize = pos;
    while i < n && is_name_char(cs[i])
        invariant
            n == cs@.len(),
            pos <= i <= n,
            name_to(cs@, pos as int) == name_to(cs@, i as int),
        decreases n - i,
    {
        i += 1;
    }
    while pos < i && cs[i - 1] == '.'
        invariant
            n == cs@.len(),
            pos <= i <= n,
            name_end(cs@, pos as int) == without_dots(cs@, pos as int, i as int),
        decreases i,
    {
        i -= 1;
    }
    i
}

/// The text between two positions.
pub(crate) fn text_between(cs: &[char], from: usize, to: usize) -> (s: String)
    requires
        from <= to <= cs@.len(),
    ensures
        s@ == cs@.subrange(from as int, to as int),
{
    string_of(vstd::slice::slice_subrange(cs, from, to))
}

// --- Escapes ---------------------------------------------------------------------------

/// Something that was read and where it ends, or an error.
pub type Read<T> = Result<(T, int), Seq<char>>;

/// The number of `n` hexadecimal digits from `pos` on, continuing `code`.
pub open spec fn hex_from(cs: Seq<char>, pos: int, n: nat, code: int) -> Read<int>
    decreases n,
{
    if n == 0 {
        Ok((code, pos))
    } else if pos < 0 || pos >= cs.len() {
        Err(error_at(cs, cs.len() as int, "truncated \\u escape"@))
    } else {
        match hex_value(cs[pos]) {
            Some(d) => hex_from(cs, pos + 1, (n - 1) as nat, code * 16 + d),
            None => Err(error_at(cs, pos + 1, "non-hex digit in \\u escape"@)),
        }
    }
}

/// The character of `n` hexadecimal digits.
pub open spec fn hex_char_at(cs: Seq<char>, pos: int, n: nat) -> Read<char> {
    match hex_from(cs, pos, n, 0) {
        Ok((code, end)) => match scalar_char(code) {
            Some(c) => Ok((c, end)),
            None => Err(error_at(cs, end, "\\u escape is not a codepoint"@)),
        },
        Err(e) => Err(e),
    }
}

/// The number of texts of `k` hexadecimal digits.
spec fn sixteen(k: nat) -> nat
    decreases k,
{
    if k == 0 {
        1
    } else {
        16 * sixteen((k - 1) as nat)
    }
}

proof fn lemma_sixteen(k: nat)
    requires
        k <= 8,
    ensures
        sixteen(k) <= 0x1_0000_0000,
{
    reveal_with_fuel(sixteen, 9);
}

fn read_hex(cs: &[char], pos: usize, n: usize) -> (r: Result<(char, usize), String>)
    requires
        pos <= cs@.len(),
        n <= 8,
    ensures
        match r {
            Ok((c, end)) => hex_char_at(cs@, pos as int, n as nat) == Ok::<(char, int), Seq<char>>(
                (c, end as int),
            ) && pos <= end <= cs@.len(),
            Err(e) => hex_char_at(cs@, pos as int, n as nat) == Err::<(char, int), Seq<char>>(e@),
        },
{
    let len: usize = cs.len();
    let mut code: u64 = 0;
    let mut i: usize = pos;
    let mut left: usize = n;
    while left > 0
        invariant
            len == cs@.len(),
            pos <= i <= len,
            left <= n <= 8,
            code < sixteen((n - left) as nat),
            hex_from(cs@, pos as int, n as nat, 0) == hex_from(
                cs@,
                i as int,
                left as nat,
                code as int,
            ),
        decreases left,
    {
        if i >= len {
            return Err(fail(cs, len, "truncated \\u escape"));
        }
        match hex_digit(cs[i]) {
            Some(d) => {
                proof {
                    let k = (n - left) as nat;
                    lemma_sixteen(k);
                    assert(sixteen(k + 1) == 16 * sixteen(k));
                    assert((n - (left - 1)) as nat == k + 1);
                }
                code = code * 16 + d as u64;
                i += 1;
                left -= 1;
            },
            None => {
                return Err(fail(cs, i + 1, "non-hex digit in \\u escape"));
            },
        }
    }
    proof {
        lemma_sixteen(n as nat);
    }
    match char::from_u32(code as u32) {
        Some(c) => Ok((c, i)),
        None => Err(fail(cs, i, "\\u escape is not a codepoint")),
    }
}

// --- IRIs ------------------------------------------------------------------------------

/// The first place, from `i` on, where `part` stands; the length if there is
/// none.
pub open spec fn find_part(s: Seq<char>, part: Seq<char>, i: int) -> int
    decreases s.len() - i,
{
    if i < 0 || i >= s.len() {
        s.len() as int
    } else if part_at(s, part, i) {
        i
    } else {
        find_part(s, part, i + 1)
    }
}

/// The place after the last slash, or the end if there is no slash.
pub open spec fn after_slash(s: Seq<char>, end: int) -> int
    decreases end,
{
    if end <= 0 || end > s.len() {
        s.len() as int
    } else if s[end - 1] == '/' {
        end
    } else {
        after_slash(s, end - 1)
    }
}

/// Where the path of an IRI begins: at the first slash after the authority.
pub open spec fn path_start(base: Seq<char>) -> int {
    let k = find_part(base, "://"@, 0);
    find_part(
        base,
        "/"@,
        if k < base.len() {
            k + 3
        } else {
            0
        },
    )
}

/// A reference, resolved against the base if there is one and the reference is
/// not absolute.
pub open spec fn resolved(base: Option<Seq<char>>, r: Seq<char>) -> Seq<char> {
    match base {
        None => r,
        Some(b) => if r.len() == 0 {
            b
        } else if has_part(r, "://"@) || has_prefix(r, "urn:"@) {
            r
        } else if r[0] == '#' {
            b.take(find_part(b, "#"@, 0)) + r
        } else if r[0] == '/' {
            b.take(path_start(b)) + r
        } else {
            b.take(after_slash(b, b.len() as int)) + r
        },
    }
}

/// The characters of an IRI from `pos` on, after `acc`, up to the closing
/// bracket.
pub open spec fn iri_chars(cs: Seq<char>, pos: int, acc: Seq<char>) -> Read<Seq<char>>
    decreases cs.len() - pos,
{
    if pos < 0 || pos >= cs.len() {
        Err(error_at(cs, cs.len() as int, "unterminated IRI"@))
    } else if cs[pos] == '>' {
        Ok((acc, pos + 1))
    } else if cs[pos] == '\\' {
        let n: nat = if at(cs, pos + 1, 'u') {
            4
        } else {
            8
        };
        if at(cs, pos + 1, 'u') || at(cs, pos + 1, 'U') {
            match hex_char_at(cs, pos + 2, n) {
                Ok((c, end)) => if pos < end <= cs.len() {
                    iri_chars(cs, end, acc.push(c))
                } else {
                    Ok((acc, end))
                },
                Err(e) => Err(e),
            }
        } else {
            Err(
                error_at(
                    cs,
                    if pos + 2 <= cs.len() {
                        pos + 2
                    } else {
                        pos + 1
                    },
                    "bad escape in IRI"@,
                ),
            )
        }
    } else {
        iri_chars(cs, pos + 1, acc.push(cs[pos]))
    }
}

/// The IRI in brackets that begins at `pos`.
pub open spec fn iri_at(cs: Seq<char>, pos: int, base: Option<Seq<char>>) -> Read<Seq<char>> {
    match iri_chars(cs, pos + 1, Seq::empty()) {
        Ok((raw, end)) => Ok((resolved(base, raw), end)),
        Err(e) => Err(e),
    }
}

/// The first place, from `i` on, where `part` stands.
fn seek_part(s: &Vec<char>, part: &str, i: usize) -> (r: usize)
    ensures
        r == find_part(s@, part@, i as int),
        r <= s@.len(),
{
    let ps: Vec<char> = chars_of(part);
    let n: usize = s.len();
    let mut k: usize = i;
    while k < n
        invariant
            n == s@.len(),
            ps@ == part@,
            find_part(s@, part@, i as int) == find_part(s@, part@, k as int),
        decreases n - k,
    {
        if ps.len() <= n - k && crate::text::is_part_at(s, &ps, k) {
            return k;
        }
        k += 1;
    }
    n
}

/// The place after the last slash, or the end.
fn seek_slash(s: &Vec<char>) -> (r: usize)
    ensures
        r == after_slash(s@, s@.len() as int),
        r <= s@.len(),
{
    let mut k: usize = s.len();
    while k > 0
        invariant
            k <= s@.len(),
            after_slash(s@, s@.len() as int) == after_slash(s@, k as int),
        decreases k,
    {
        if s[k - 1] == '/' {
            return k;
        }
        k -= 1;
    }
    s.len()
}

/// The beginning of a text, continued by another.
fn continued(s: &Vec<char>, to: usize, more: &str) -> (r: String)
    requires
        to <= s@.len(),
    ensures
        r@ == s@.take(to as int) + more@,
{
    let mut r: String = text_between(s.as_slice(), 0, to);
    r.push_str(more);
    assert(r@ =~= s@.take(to as int) + more@);
    r
}

/// A text, if there is one.
pub open spec fn opt_chars(s: Option<String>) -> Option<Seq<char>> {
    match s {
        Some(t) => Some(t@),
        None => None,
    }
}

/// A reference, resolved against the base.
fn resolve(base: &Option<String>, reference: String) -> (r: String)
    ensures
        r@ == resolved(opt_chars(*base), reference@),
{
    match base {
        None => reference,
        Some(b) => {
            let rs: Vec<char> = chars_of(reference.as_str());
            let bs: Vec<char> = chars_of(b.as_str());
            if rs.len() == 0 {
                return b.clone();
            }
            if contains_text(reference.as_str(), "://") || starts_with_text(
                reference.as_str(),
                "urn:",
            ) {
                return reference;
            }
            if rs[0] == '#' {
                let k: usize = seek_part(&bs, "#", 0);
                continued(&bs, k, reference.as_str())
            } else if rs[0] == '/' {
                let k: usize = seek_part(&bs, "://", 0);
                proof {
                    reveal_strlit("://");
                    lemma_find_part(bs@, "://"@, 0);
                }
                let from: usize = if k < bs.len() {
                    k + 3
                } else {
                    0
                };
                let end: usize = seek_part(&bs, "/", from);
                continued(&bs, end, reference.as_str())
            } else {
                let k: usize = seek_slash(&bs);
                continued(&bs, k, reference.as_str())
            }
        },
    }
}

proof fn lemma_find_part(s: Seq<char>, part: Seq<char>, i: int)
    requires
        0 <= i,
    ensures
        find_part(s, part, i) < s.len() ==> part_at(s, part, find_part(s, part, i)),
    decreases s.len() - i,
{
    if i < s.len() && !part_at(s, part, i) {
        lemma_find_part(s, part, i + 1);
    }
}

/// Reads an IRI in brackets.
pub(crate) fn read_iri(cs: &[char], pos: usize, base: &Option<String>) -> (r: Result<
    (String, usize),
    String,
>)
    requires
        pos < cs@.len(),
    ensures
        match r {
            Ok((s, end)) => iri_at(cs@, pos as int, opt_chars(*base)) == Ok::<
                (Seq<char>, int),
                Seq<char>,
            >((s@, end as int)) && pos < end <= cs@.len(),
            Err(e) => iri_at(cs@, pos as int, opt_chars(*base)) == Err::<(Seq<char>, int), Seq<char>>(
                e@,
            ),
        },
{
    let n: usize = cs.len();
    let mut raw: String = String::new();
    let mut i: usize = pos + 1;
    assert(raw@ =~= Seq::<char>::empty());
    while i < n
        invariant
            n == cs@.len(),
            pos < i <= n,
            iri_chars(cs@, pos + 1, Seq::empty()) == iri_chars(cs@, i as int, raw@),
        decreases n - i,
    {
        let c: char = cs[i];
        if c == '>' {
            return Ok((resolve(base, raw), i + 1));
        }
        if c == '\\' {
            if i + 1 >= n {
                return Err(fail(cs, i + 1, "bad escape in IRI"));
            }
            let kind: char = cs[i + 1];
            if kind == 'u' || kind == 'U' {
                let digits: usize = if kind == 'u' {
                    4
                } else {
                    8
                };
                match read_hex(cs, i + 2, digits) {
                    Ok((x, end)) => {
                        raw.push(x);
                        i = end;
                    },
                    Err(e) => {
                        return Err(e);
                    },
                }
            } else {
                return Err(fail(cs, i + 2, "bad escape in IRI"));
            }
        } else {
            raw.push(c);
            i += 1;
        }
    }
    Err(fail(cs, n, "unterminated IRI"))
}

// --- Prefixed names --------------------------------------------------------------------

/// The declared prefixes, the latest last.
pub type Prefixes = Seq<(Seq<char>, Seq<char>)>;

/// The namespace of a prefix: the latest declaration counts.
pub open spec fn namespace(ps: Prefixes, name: Seq<char>) -> Option<Seq<char>>
    decreases ps.len(),
{
    if ps.len() == 0 {
        None
    } else if ps.last().0 == name {
        Some(ps.last().1)
    } else {
        namespace(ps.drop_last(), name)
    }
}

/// A local part in the making: its characters, the end of its last character
/// that may end it, and how many characters there are up to that end.
pub open spec fn local_from(cs: Seq<char>, pos: int, acc: Seq<char>, end: int, len: int) -> Read<Seq<char>>
    decreases cs.len() - pos,
{
    if at(cs, pos, '\\') {
        if pos + 1 < cs.len() && local_escapable(cs[pos + 1]) {
            local_from(cs, pos + 2, acc.push(cs[pos + 1]), pos + 2, acc.len() as int + 1)
        } else {
            Err(
                error_at(
                    cs,
                    if pos + 2 <= cs.len() {
                        pos + 2
                    } else {
                        pos + 1
                    },
                    "bad escape in a prefixed name"@,
                ),
            )
        }
    } else if 0 <= pos < cs.len() && local_char(cs[pos]) {
        if cs[pos] == '.' {
            local_from(cs, pos + 1, acc.push(cs[pos]), end, len)
        } else {
            local_from(cs, pos + 1, acc.push(cs[pos]), pos + 1, acc.len() as int + 1)
        }
    } else {
        Ok((acc.take(len), end))
    }
}

/// The prefixed name that begins at `pos`, as an IRI.
pub open spec fn prefixed_at(cs: Seq<char>, pos: int, ps: Prefixes) -> Read<Seq<char>> {
    let colon = name_end(cs, pos);
    let prefix = cs.subrange(pos, colon);
    if prefix.len() > 0 && !name_start_char(prefix[0]) {
        Err(error_at(cs, pos, "prefix label starts with an illegal character"@))
    } else if !at(cs, colon, ':') {
        Err(error_at(cs, pos, "expected a term"@))
    } else {
        match local_from(cs, colon + 1, Seq::empty(), colon + 1, 0) {
            Ok((local, end)) => match namespace(ps, prefix) {
                Some(ns) => Ok((ns + local, end)),
                None => Err(error_at(cs, end, "unknown prefix '"@ + prefix + ":'"@)),
            },
            Err(e) => Err(e),
        }
    }
}

/// A list of prefixes as text.
pub open spec fn prefixes_view(v: Seq<(String, String)>) -> Prefixes {
    v.map_values(|p: (String, String)| (p.0@, p.1@))
}

fn find_namespace<'a>(ps: &'a Vec<(String, String)>, name: &str) -> (r: Option<&'a String>)
    ensures
        match r {
            Some(ns) => namespace(prefixes_view(ps@), name@) == Some(ns@),
            None => namespace(prefixes_view(ps@), name@) is None,
        },
{
    let ghost pv = prefixes_view(ps@);
    let mut i: usize = ps.len();
    assert(pv.take(i as int) =~= pv);
    while i > 0
        invariant
            pv == prefixes_view(ps@),
            i <= ps@.len(),
            namespace(pv, name@) == namespace(pv.take(i as int), name@),
        decreases i,
    {
        proof {
            assert(pv.take(i as int).last() == pv[i - 1]);
            assert(pv.take(i as int).drop_last() =~= pv.take(i - 1));
        }
        if same_text(ps[i - 1].0.as_str(), name) {
            return Some(&ps[i - 1].1);
        }
        i -= 1;
    }
    None
}

fn read_local(cs: &[char], pos: usize) -> (r: Result<(String, usize), String>)
    requires
        pos <= cs@.len(),
    ensures
        match r {
            Ok((s, end)) => local_from(cs@, pos as int, Seq::empty(), pos as int, 0) == Ok::<
                (Seq<char>, int),
                Seq<char>,
            >((s@, end as int)) && pos <= end <= cs@.len(),
            Err(e) => local_from(cs@, pos as int, Seq::empty(), pos as int, 0) == Err::<
                (Seq<char>, int),
                Seq<char>,
            >(e@),
        },
{
    let n: usize = cs.len();
    let mut local: Vec<char> = Vec::new();
    let mut i: usize = pos;
    let mut end: usize = pos;
    let mut len: usize = 0;
    assert(local@ =~= Seq::<char>::empty());
    loop
        invariant
            n == cs@.len(),
            pos <= end <= i <= n,
            len <= local@.len(),
            local_from(cs@, pos as int, Seq::empty(), pos as int, 0) == local_from(
                cs@,
                i as int,
                local@,
                end as int,
                len as int,
            ),
        decreases n - i,
    {
        if i < n && cs[i] == '\\' {
            if i + 1 >= n {
                return Err(fail(cs, i + 1, "bad escape in a prefixed name"));
            }
            let c: char = cs[i + 1];
            if !is_local_escapable(c) {
                return Err(fail(cs, i + 2, "bad escape in a prefixed name"));
            }
            local.push(c);
            i += 2;
            end = i;
            len = local.len();
        } else if i < n && is_local_char(cs[i]) {
            let c: char = cs[i];
            local.push(c);
            i += 1;
            if c != '.' {
                end = i;
                len = local.len();
            }
        } else {
            let s: String = text_between(local.as_slice(), 0, len);
            assert(s@ =~= local@.take(len as int));
            return Ok((s, end));
        }
    }
}

/// Reads a prefixed name.
pub(crate) fn read_prefixed(cs: &[char], pos: usize, ps: &Vec<(String, String)>) -> (r: Result<
    (String, usize),
    String,
>)
    requires
        pos <= cs@.len(),
    ensures
        match r {
            Ok((s, end)) => prefixed_at(cs@, pos as int, prefixes_view(ps@)) == Ok::<
                (Seq<char>, int),
                Seq<char>,
            >((s@, end as int)) && pos < end <= cs@.len(),
            Err(e) => prefixed_at(cs@, pos as int, prefixes_view(ps@)) == Err::<
                (Seq<char>, int),
                Seq<char>,
            >(e@),
        },
{
    let colon: usize = find_name_end(cs, pos);
    if pos < colon && !is_name_start_char(cs[pos]) {
        return Err(fail(cs, pos, "prefix label starts with an illegal character"));
    }
    if colon >= cs.len() || cs[colon] != ':' {
        return Err(fail(cs, pos, "expected a term"));
    }
    let prefix: String = text_between(cs, pos, colon);
    match read_local(cs, colon + 1) {
        Ok((local, end)) => match find_namespace(ps, prefix.as_str()) {
            Some(ns) => {
                let mut iri: String = ns.clone();
                iri.push_str(local.as_str());
                assert(iri@ =~= ns@ + local@);
                Ok((iri, end))
            },
            None => {
                let mut msg: String = String::new();
                msg.push_str("unknown prefix '");
                msg.push_str(prefix.as_str());
                msg.push_str(":'");
                assert(msg@ =~= "unknown prefix '"@ + prefix@ + ":'"@);
                Err(fail(cs, end, msg.as_str()))
            },
        },
        Err(e) => Err(e),
    }
}

// --- Numbers ---------------------------------------------------------------------------

pub open spec fn digit(c: char) -> bool {
    '0' <= c && c <= '9'
}

/// Whether a digit stands at `pos`.
pub open spec fn digit_at(cs: Seq<char>, pos: int) -> bool {
    0 <= pos < cs.len() && digit(cs[pos])
}

pub open spec fn sign_at(cs: Seq<char>, pos: int) -> bool {
    at(cs, pos, '+') || at(cs, pos, '-')
}

/// Where the digits from `pos` on end.
pub open spec fn digits_end(cs: Seq<char>, pos: int) -> int
    decreases cs.len() - pos,
{
    if digit_at(cs, pos) {
        digits_end(cs, pos + 1)
    } else {
        pos
    }
}

/// Whether the letter of an exponent stands at `pos`.
pub open spec fn exponent_letter(cs: Seq<char>, pos: int) -> bool {
    at(cs, pos, 'e') || at(cs, pos, 'E')
}

/// Where the digits of an exponent begin whose letter stands at `pos`.
pub open spec fn exponent_digits(cs: Seq<char>, pos: int) -> int {
    if sign_at(cs, pos + 1) {
        pos + 2
    } else {
        pos + 1
    }
}

/// Whether an exponent stands at `pos`: its letter, perhaps a sign, and at least
/// one digit.
pub open spec fn exponent_at(cs: Seq<char>, pos: int) -> bool {
    exponent_letter(cs, pos) && digit_at(cs, exponent_digits(cs, pos))
}

/// Where the part of a number before the exponent ends, and whether it has a
/// fraction: digits, or digits with a dot and a fraction, where the digits before
/// the dot may be missing. A dot without a fraction belongs to the number only
/// after digits and before an exponent.
pub open spec fn mantissa(cs: Seq<char>, pos: int) -> Option<(int, bool)> {
    let end = digits_end(cs, pos);
    if at(cs, end, '.') && digit_at(cs, end + 1) {
        Some((digits_end(cs, end + 1), true))
    } else if end <= pos {
        None
    } else if at(cs, end, '.') && exponent_at(cs, end + 1) {
        Some((end + 1, false))
    } else {
        Some((end, false))
    }
}

/// A literal of an XML Schema type.
pub open spec fn xsd_literal(value: Seq<char>, name: Seq<char>) -> TermText {
    TermText { value, typ: typed("http://www.w3.org/2001/XMLSchema#"@ + name) }
}

/// The number that begins at `pos`: an integer, a decimal with a fraction, or a
/// double with an exponent.
pub open spec fn number_at(cs: Seq<char>, pos: int) -> Read<TermText> {
    let start = if sign_at(cs, pos) {
        pos + 1
    } else {
        pos
    };
    match mantissa(cs, start) {
        None => Err(error_at(cs, start, "expected a number"@)),
        Some((end, fraction)) => if exponent_letter(cs, end) {
            let first = exponent_digits(cs, end);
            if digit_at(cs, first) {
                let last = digits_end(cs, first);
                Ok((xsd_literal(cs.subrange(pos, last), "double"@), last))
            } else {
                Err(error_at(cs, first, "expected a digit in the exponent"@))
            }
        } else if fraction {
            Ok((xsd_literal(cs.subrange(pos, end), "decimal"@), end))
        } else {
            Ok((xsd_literal(cs.subrange(pos, end), "integer"@), end))
        },
    }
}

fn is_digit(c: char) -> (r: bool)
    ensures
        r == digit(c),
{
    '0' <= c && c <= '9'
}

pub(crate) fn make_xsd(value: String, name: &str) -> (t: ParsedTerm)
    ensures
        t@ == xsd_literal(value@, name@),
{
    let mut d: String = String::new();
    d.push_str("http://www.w3.org/2001/XMLSchema#");
    d.push_str(name);
    assert(d@ =~= "http://www.w3.org/2001/XMLSchema#"@ + name@);
    ParsedTerm { value, typ: TermType::literal_datatype(d) }
}

fn has_digit(cs: &[char], pos: usize) -> (r: bool)
    ensures
        r == digit_at(cs@, pos as int),
{
    pos < cs.len() && is_digit(cs[pos])
}

fn skip_digits(cs: &[char], pos: usize) -> (end: usize)
    requires
        pos <= cs@.len(),
    ensures
        end == digits_end(cs@, pos as int),
        pos <= end <= cs@.len(),
{
    let n: usize = cs.len();
    let mut i: usize = pos;
    while i < n && is_digit(cs[i])
        invariant
            n == cs@.len(),
            pos <= i <= n,
            digits_end(cs@, pos as int) == digits_end(cs@, i as int),
        decreases n - i,
    {
        i += 1;
    }
    i
}

/// Where the digits of an exponent begin, if its letter stands here.
fn exponent_start(cs: &[char], pos: usize) -> (r: Option<usize>)
    requires
        pos <= cs@.len(),
    ensures
        match r {
            Some(p) => exponent_letter(cs@, pos as int) && p == exponent_digits(cs@, pos as int) && pos
                < p <= cs@.len(),
            None => !exponent_letter(cs@, pos as int),
        },
{
    let n: usize = cs.len();
    if pos >= n || (cs[pos] != 'e' && cs[pos] != 'E') {
        return None;
    }
    let next: usize = pos + 1;
    if next < n && (cs[next] == '+' || cs[next] == '-') {
        Some(next + 1)
    } else {
        Some(next)
    }
}

fn read_mantissa(cs: &[char], pos: usize) -> (r: Option<(usize, bool)>)
    requires
        pos <= cs@.len(),
    ensures
        match r {
            Some((end, fraction)) => mantissa(cs@, pos as int) == Some((end as int, fraction)) && pos < end
                <= cs@.len(),
            None => mantissa(cs@, pos as int) is None,
        },
{
    let n: usize = cs.len();
    let end: usize = skip_digits(cs, pos);
    let dot: bool = end < n && cs[end] == '.';
    if dot && has_digit(cs, end + 1) {
        let last: usize = skip_digits(cs, end + 1);
        return Some((last, true));
    }
    if end <= pos {
        return None;
    }
    if dot {
        if let Some(first) = exponent_start(cs, end + 1) {
            if has_digit(cs, first) {
                return Some((end + 1, false));
            }
        }
    }
    Some((end, false))
}

/// Reads a number.
fn read_number(cs: &[char], pos: usize) -> (r: Result<(ParsedTerm, usize), String>)
    requires
        pos <= cs@.len(),
    ensures
        match r {
            Ok((t, end)) => number_at(cs@, pos as int) == Ok::<(TermText, int), Seq<char>>(
                (t@, end as int),
            ) && pos < end <= cs@.len(),
            Err(e) => number_at(cs@, pos as int) == Err::<(TermText, int), Seq<char>>(e@),
        },
{
    let n: usize = cs.len();
    let start: usize = if pos < n && (cs[pos] == '+' || cs[pos] == '-') {
        pos + 1
    } else {
        pos
    };
    match read_mantissa(cs, start) {
        None => Err(fail(cs, start, "expected a number")),
        Some((end, fraction)) => match exponent_start(cs, end) {
            Some(first) => if has_digit(cs, first) {
                let last: usize = skip_digits(cs, first);
                Ok((make_xsd(text_between(cs, pos, last), "double"), last))
            } else {
                Err(fail(cs, first, "expected a digit in the exponent"))
            },
            None => if fraction {
                Ok((make_xsd(text_between(cs, pos, end), "decimal"), end))
            } else {
                Ok((make_xsd(text_between(cs, pos, end), "integer"), end))
            },
        },
    }
}

// --- Strings ---------------------------------------------------------------------------

/// What an escape letter stands for, other than a code point.
pub open spec fn short_escape(c: char) -> Option<char> {
    if c == '"' || c == '\'' || c == '\\' {
        Some(c)
    } else if c == 'n' {
        Some('\n')
    } else if c == 'r' {
        Some('\r')
    } else if c == 't' {
        Some('\t')
    } else if c == 'b' {
        Some('\u{8}')
    } else if c == 'f' {
        Some('\u{c}')
    } else {
        None
    }
}

/// Whether a string is closed at `pos`: by one quote, or by three.
pub open spec fn closed_at(cs: Seq<char>, pos: int, quote: char, long: bool) -> bool {
    at(cs, pos, quote) && (long ==> at(cs, pos + 1, quote) && at(cs, pos + 2, quote))
}

/// The characters of a string from `pos` on, after `acc`, up to the closing
/// quotes.
pub open spec fn string_chars(cs: Seq<char>, pos: int, acc: Seq<char>, quote: char, long: bool) -> Read<
    Seq<char>,
>
    decreases cs.len() - pos,
{
    if closed_at(cs, pos, quote, long) {
        Ok(
            (
                acc,
                if long {
                    pos + 3
                } else {
                    pos + 1
                },
            ),
        )
    } else if pos < 0 || pos >= cs.len() {
        Err(error_at(cs, cs.len() as int, "unterminated string"@))
    } else if cs[pos] == '\\' {
        if pos + 1 >= cs.len() {
            Err(error_at(cs, pos + 1, "unterminated escape"@))
        } else {
            let esc = cs[pos + 1];
            match short_escape(esc) {
                Some(c) => string_chars(cs, pos + 2, acc.push(c), quote, long),
                None => if esc == 'u' || esc == 'U' {
                    let n: nat = if esc == 'u' {
                        4
                    } else {
                        8
                    };
                    match hex_char_at(cs, pos + 2, n) {
                        Ok((c, end)) => if pos < end <= cs.len() {
                            string_chars(cs, end, acc.push(c), quote, long)
                        } else {
                            Ok((acc, end))
                        },
                        Err(e) => Err(e),
                    }
                } else {
                    Err(error_at(cs, pos + 2, "unknown escape"@))
                },
            }
        }
    } else if (cs[pos] == '\n' || cs[pos] == '\r') && !long {
        Err(error_at(cs, pos + 1, "newline in a single-quoted string"@))
    } else {
        string_chars(cs, pos + 1, acc.push(cs[pos]), quote, long)
    }
}

/// The quoted string that begins at `pos`.
pub open spec fn string_at(cs: Seq<char>, pos: int) -> Read<Seq<char>> {
    let quote = cs[pos];
    if at(cs, pos + 1, quote) && at(cs, pos + 2, quote) {
        string_chars(cs, pos + 3, Seq::empty(), quote, true)
    } else {
        string_chars(cs, pos + 1, Seq::empty(), quote, false)
    }
}

fn find_escape(c: char) -> (r: Option<char>)
    ensures
        r == short_escape(c),
{
    if c == '"' || c == '\'' || c == '\\' {
        Some(c)
    } else if c == 'n' {
        Some('\n')
    } else if c == 'r' {
        Some('\r')
    } else if c == 't' {
        Some('\t')
    } else if c == 'b' {
        Some('\u{8}')
    } else if c == 'f' {
        Some('\u{c}')
    } else {
        None
    }
}

/// Reads a quoted string.
fn read_string(cs: &[char], pos: usize) -> (r: Result<(String, usize), String>)
    requires
        pos < cs@.len(),
        cs@[pos as int] == '"' || cs@[pos as int] == '\'',
    ensures
        match r {
            Ok((s, end)) => string_at(cs@, pos as int) == Ok::<(Seq<char>, int), Seq<char>>(
                (s@, end as int),
            ) && pos < end <= cs@.len(),
            Err(e) => string_at(cs@, pos as int) == Err::<(Seq<char>, int), Seq<char>>(e@),
        },
{
    let n: usize = cs.len();
    let quote: char = cs[pos];
    let long: bool = n - pos >= 3 && cs[pos + 1] == quote && cs[pos + 2] == quote;
    let mut out: String = String::new();
    let mut i: usize = if long {
        pos + 3
    } else {
        pos + 1
    };
    assert(out@ =~= Seq::<char>::empty());
    while i < n
        invariant
            n == cs@.len(),
            pos < i <= n,
            string_at(cs@, pos as int) == string_chars(cs@, i as int, out@, quote, long),
        decreases n - i,
    {
        let c: char = cs[i];
        if c == quote && (!long || (n - i >= 3 && cs[i + 1] == quote && cs[i + 2] == quote)) {
            return Ok(
                (
                    out,
                    if long {
                        i + 3
                    } else {
                        i + 1
                    },
                ),
            );
        }
        if c == '\\' {
            if i + 1 >= n {
                return Err(fail(cs, i + 1, "unterminated escape"));
            }
            let esc: char = cs[i + 1];
            match find_escape(esc) {
                Some(x) => {
                    out.push(x);
                    i += 2;
                },
                None => {
                    if esc == 'u' || esc == 'U' {
                        let digits: usize = if esc == 'u' {
                            4
                        } else {
                            8
                        };
                        match read_hex(cs, i + 2, digits) {
                            Ok((x, end)) => {
                                out.push(x);
                                i = end;
                            },
                            Err(e) => {
                                return Err(e);
                            },
                        }
                    } else {
                        return Err(fail(cs, i + 2, "unknown escape"));
                    }
                },
            }
        } else if (c == '\n' || c == '\r') && !long {
            return Err(fail(cs, i + 1, "newline in a single-quoted string"));
        } else {
            out.push(c);
            i += 1;
        }
    }
    Err(fail(cs, n, "unterminated string"))
}

// --- Literals and terms ----------------------------------------------------------------

pub open spec fn lang_char(c: char) -> bool {
    ascii_alnum(c) || c == '-'
}

/// Where a language tag ends.
pub open spec fn lang_to(cs: Seq<char>, pos: int) -> int
    decreases cs.len() - pos,
{
    if 0 <= pos < cs.len() && lang_char(cs[pos]) {
        lang_to(cs, pos + 1)
    } else {
        pos
    }
}

/// What the names of a document are resolved against.
pub struct Names {
    pub base: Option<Seq<char>>,
    pub prefixes: Prefixes,
}

/// The literal that begins at `pos`: a string, and a language or a datatype.
pub open spec fn literal_at(cs: Seq<char>, pos: int, names: Names) -> Read<TermText> {
    match string_at(cs, pos) {
        Ok((value, p)) => if at(cs, p, '@') {
            let end = lang_to(cs, p + 1);
            if end <= p + 1 {
                Err(error_at(cs, p + 1, "empty language tag"@))
            } else {
                Ok((TermText { value, typ: tagged(cs.subrange(p + 1, end)) }, end))
            }
        } else if at(cs, p, '^') && at(cs, p + 1, '^') {
            let q = space_to(cs, p + 2);
            let dt = if at(cs, q, '<') {
                iri_at(cs, q, names.base)
            } else {
                prefixed_at(cs, q, names.prefixes)
            };
            match dt {
                Ok((d, end)) => Ok((TermText { value, typ: typed(d) }, end)),
                Err(e) => Err(e),
            }
        } else {
            Ok((TermText { value, typ: plain() }, p))
        },
        Err(e) => Err(e),
    }
}

/// The label of a blank node that a document writes. A leading underscore is
/// doubled, which keeps it apart from every generated label.
pub open spec fn document_label(label: Seq<char>) -> Seq<char> {
    if label.len() > 0 && label[0] == '_' {
        seq!['_'] + label
    } else {
        label
    }
}

/// The label of a generated blank node.
pub open spec fn generated_label(n: u64) -> Seq<char> {
    "_ttl"@ + decimal(n as nat)
}

/// Different labels of a document stay different, and none is a generated one.
pub proof fn law_document_labels(a: Seq<char>, b: Seq<char>, n: u64)
    ensures
        document_label(a) == document_label(b) ==> a == b,
        a.len() > 0 ==> document_label(a) != generated_label(n),
{
    let x = document_label(a);
    let y = document_label(b);
    if x == y {
        if a.len() > 0 && a[0] == '_' {
            assert(x[1] == '_');
            if b.len() > 0 && b[0] == '_' {
                assert(a =~= x.skip(1));
                assert(b =~= y.skip(1));
            } else {
                assert(y[0] == '_');
            }
        } else if b.len() > 0 && b[0] == '_' {
            assert(y[0] == '_');
        }
    }
    reveal_strlit("_ttl");
    let g = generated_label(n);
    assert(g[0] == '_' && g[1] == 't');
    if a.len() > 0 && x == g {
        assert(x[0] == '_');
        if a[0] == '_' {
            assert(x[1] == '_');
        }
    }
}

pub open spec fn iri_term(value: Seq<char>) -> TermText {
    TermText { value, typ: TermKind::Iri }
}

pub open spec fn blank_term(label: Seq<char>) -> TermText {
    TermText { value: label, typ: TermKind::BlankNode }
}

/// The term that begins at `pos`; nothing at the end of the document.
pub open spec fn term_at(cs: Seq<char>, pos: int, names: Names) -> Read<Option<TermText>> {
    let p = space_to(cs, pos);
    if p >= cs.len() {
        Ok((None, p))
    } else if cs[p] == '<' {
        match iri_at(cs, p, names.base) {
            Ok((v, end)) => Ok((Some(iri_term(v)), end)),
            Err(e) => Err(e),
        }
    } else if cs[p] == '"' || cs[p] == '\'' {
        match literal_at(cs, p, names) {
            Ok((t, end)) => Ok((Some(t), end)),
            Err(e) => Err(e),
        }
    } else if cs[p] == '_' && at(cs, p + 1, ':') {
        let end = name_end(cs, p + 2);
        if end <= p + 2 {
            Err(error_at(cs, end, "blank node without a label"@))
        } else {
            Ok((Some(blank_term(document_label(cs.subrange(p + 2, end)))), end))
        }
    } else if digit(cs[p]) || cs[p] == '+' || cs[p] == '-' || cs[p] == '.' {
        match number_at(cs, p) {
            Ok((t, end)) => Ok((Some(t), end)),
            Err(e) => Err(e),
        }
    } else if part_at(cs, "true"@, p) {
        Ok((Some(xsd_literal("true"@, "boolean"@)), p + 4))
    } else if part_at(cs, "false"@, p) {
        Ok((Some(xsd_literal("false"@, "boolean"@)), p + 5))
    } else {
        match prefixed_at(cs, p, names.prefixes) {
            Ok((v, end)) => Ok((Some(iri_term(v)), end)),
            Err(e) => Err(e),
        }
    }
}

/// Whether a text stands at a position.
pub(crate) fn stands_at(cs: &[char], pos: usize, part: &str) -> (r: bool)
    requires
        pos <= cs@.len(),
    ensures
        r == part_at(cs@, part@, pos as int),
{
    let ps: Vec<char> = chars_of(part);
    let n: usize = cs.len();
    if n - pos < ps.len() {
        return false;
    }
    let mut i: usize = 0;
    while i < ps.len()
        invariant
            ps@ == part@,
            n == cs@.len(),
            pos + ps@.len() <= n,
            i <= ps@.len(),
            forall|k: int| 0 <= k < i ==> cs@[pos + k] == ps@[k],
        decreases ps@.len() - i,
    {
        if cs[pos + i] != ps[i] {
            proof {
                assert(cs@.subrange(pos as int, pos + part@.len())[i as int] != part@[i as int]);
            }
            return false;
        }
        i += 1;
    }
    assert(cs@.subrange(pos as int, pos + part@.len()) =~= part@);
    true
}

/// The base and the prefixes of a document.
#[derive(Debug)]
pub struct NameTable {
    pub base: Option<String>,
    pub prefixes: Vec<(String, String)>,
}

impl View for NameTable {
    type V = Names;

    open spec fn view(&self) -> Names {
        Names { base: opt_chars(self.base), prefixes: prefixes_view(self.prefixes@) }
    }
}

fn read_literal(cs: &[char], pos: usize, names: &NameTable) -> (r: Result<(ParsedTerm, usize), String>)
    requires
        pos < cs@.len(),
        cs@[pos as int] == '"' || cs@[pos as int] == '\'',
    ensures
        match r {
            Ok((t, end)) => literal_at(cs@, pos as int, names@) == Ok::<(TermText, int), Seq<char>>(
                (t@, end as int),
            ) && pos < end <= cs@.len(),
            Err(e) => literal_at(cs@, pos as int, names@) == Err::<(TermText, int), Seq<char>>(e@),
        },
{
    let n: usize = cs.len();
    let (value, p) = match read_string(cs, pos) {
        Ok(x) => x,
        Err(e) => {
            return Err(e);
        },
    };
    if p < n && cs[p] == '@' {
        let mut i: usize = p + 1;
        while i < n && (is_ascii_alnum(cs[i]) || cs[i] == '-')
            invariant
                n == cs@.len(),
                p < i <= n,
                lang_to(cs@, p + 1) == lang_to(cs@, i as int),
            decreases n - i,
        {
            i += 1;
        }
        if i <= p + 1 {
            return Err(fail(cs, p + 1, "empty language tag"));
        }
        return Ok(
            (ParsedTerm { value, typ: TermType::literal_lang(text_between(cs, p + 1, i)) }, i),
        );
    }
    if n - p >= 2 && cs[p] == '^' && cs[p + 1] == '^' {
        let q: usize = skip_space(cs, p + 2);
        let dt: Result<(String, usize), String> = if q < n && cs[q] == '<' {
            read_iri(cs, q, &names.base)
        } else {
            read_prefixed(cs, q, &names.prefixes)
        };
        return match dt {
            Ok((d, end)) => Ok((ParsedTerm { value, typ: TermType::literal_datatype(d) }, end)),
            Err(e) => Err(e),
        };
    }
    Ok((ParsedTerm { value, typ: TermType::literal_plain() }, p))
}

/// Reads a term.
pub(crate) fn read_term(cs: &[char], pos: usize, names: &NameTable) -> (r: Result<
    (Option<ParsedTerm>, usize),
    String,
>)
    requires
        pos <= cs@.len(),
    ensures
        match r {
            Ok((Some(t), end)) => term_at(cs@, pos as int, names@) == Ok::<
                (Option<TermText>, int),
                Seq<char>,
            >((Some(t@), end as int)) && pos < end <= cs@.len(),
            Ok((None, end)) => term_at(cs@, pos as int, names@) == Ok::<
                (Option<TermText>, int),
                Seq<char>,
            >((None, end as int)) && pos <= end <= cs@.len(),
            Err(e) => term_at(cs@, pos as int, names@) == Err::<(Option<TermText>, int), Seq<char>>(e@),
        },
{
    let n: usize = cs.len();
    let p: usize = skip_space(cs, pos);
    if p >= n {
        return Ok((None, p));
    }
    let c: char = cs[p];
    if c == '<' {
        return match read_iri(cs, p, &names.base) {
            Ok((v, end)) => Ok((Some(ParsedTerm { value: v, typ: TermType::Iri }), end)),
            Err(e) => Err(e),
        };
    }
    if c == '"' || c == '\'' {
        return match read_literal(cs, p, names) {
            Ok((t, end)) => Ok((Some(t), end)),
            Err(e) => Err(e),
        };
    }
    if c == '_' && p + 1 < n && cs[p + 1] == ':' {
        let end: usize = find_name_end(cs, p + 2);
        if end <= p + 2 {
            return Err(fail(cs, end, "blank node without a label"));
        }
        let mut label: String = String::new();
        if cs[p + 2] == '_' {
            label.push('_');
        }
        let rest: String = text_between(cs, p + 2, end);
        label.push_str(rest.as_str());
        assert(label@ =~= document_label(rest@));
        return Ok((Some(ParsedTerm { value: label, typ: TermType::BlankNode }), end));
    }
    if is_digit(c) || c == '+' || c == '-' || c == '.' {
        return match read_number(cs, p) {
            Ok((t, end)) => Ok((Some(t), end)),
            Err(e) => Err(e),
        };
    }
    proof {
        reveal_strlit("true");
        reveal_strlit("false");
    }
    if stands_at(cs, p, "true") {
        return Ok((Some(make_xsd(crate::text::owned("true"), "boolean")), p + 4));
    }
    if stands_at(cs, p, "false") {
        return Ok((Some(make_xsd(crate::text::owned("false"), "boolean")), p + 5));
    }
    match read_prefixed(cs, p, &names.prefixes) {
        Ok((v, end)) => Ok((Some(ParsedTerm { value: v, typ: TermType::Iri }), end)),
        Err(e) => Err(e),
    }
}

} // verus!
