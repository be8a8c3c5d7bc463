//! The N-Triples format: reading and writing terms, lines and documents.

use crate::hypertrie::dictionary::{TermKind, TermType};
use crate::text::{chars_of, hex_digit, is_white, string_of, trim, white_end};
use vstd::prelude::*;
use vstd::slice::slice_subrange;

verus! {

/// A term as text.
pub struct TermText {
    pub value: Seq<char>,
    pub typ: TermKind,
}

/// A triple as text.
pub struct TripleText {
    pub subject: TermText,
    pub predicate: TermText,
    pub object: TermText,
}

#[derive(Debug)]
pub struct ParsedTerm {
    pub value: String,
    pub typ: TermType,
}

#[derive(Debug)]
pub struct ParsedTriple {
    pub subject: ParsedTerm,
    pub predicate: ParsedTerm,
    pub object: ParsedTerm,
}

impl View for ParsedTerm {
    type V = TermText;

    open spec fn view(&self) -> TermText {
        TermText { value: self.value@, typ: self.typ@ }
    }
}

impl View for ParsedTriple {
    type V = TripleText;

    open spec fn view(&self) -> TripleText {
        TripleText {
            subject: self.subject@,
            predicate: self.predicate@,
            object: self.object@,
        }
    }
}

impl Clone for ParsedTerm {
    fn clone(&self) -> (r: ParsedTerm)
        ensures
            r@ == self@,
    {
        ParsedTerm { value: self.value.clone(), typ: self.typ.clone() }
    }
}

impl Clone for ParsedTriple {
    fn clone(&self) -> (r: ParsedTriple)
        ensures
            r@ == self@,
    {
        ParsedTriple {
            subject: self.subject.clone(),
            predicate: self.predicate.clone(),
            object: self.object.clone(),
        }
    }
}

// --- Writing ---------------------------------------------------------------

/// The escaped form of one character of a literal.
pub open spec fn escaped_char(c: char) -> Seq<char> {
    if c == '\\' {
        seq!['\\', '\\']
    } else if c == '"' {
        seq!['\\', '"']
    } else if c == '\n' {
        seq!['\\', 'n']
    } else if c == '\r' {
        seq!['\\', 'r']
    } else if c == '\t' {
        seq!['\\', 't']
    } else if c == '\u{8}' {
        seq!['\\', 'b']
    } else if c == '\u{c}' {
        seq!['\\', 'f']
    } else {
        seq![c]
    }
}

/// The escaped form of a lexical value.
pub open spec fn escaped(s: Seq<char>) -> Seq<char>
    decreases s.len(),
{
    if s.len() == 0 {
        Seq::empty()
    } else {
        escaped(s.drop_last()) + escaped_char(s.last())
    }
}

/// A term in N-Triples syntax.
pub open spec fn term_text(value: Seq<char>, typ: TermKind) -> Seq<char> {
    match typ {
        TermKind::Iri => seq!['<'] + value + seq!['>'],
        TermKind::BlankNode => seq!['_', ':'] + value,
        TermKind::Literal { datatype, lang } => {
            let quoted = seq!['"'] + escaped(value) + seq!['"'];
            match lang {
                Some(l) => quoted + seq!['@'] + l,
                None => match datatype {
                    Some(d) => quoted + seq!['^', '^', '<'] + d + seq!['>'],
                    None => quoted,
                },
            }
        },
    }
}

/// Escapes the special characters of a lexical value.
pub fn escape_literal(s: &str) -> (out: String)
    ensures
        out@ == escaped(s@),
{
    let cs: Vec<char> = chars_of(s);
    let mut out: String = String::new();
    let mut i: usize = 0;
    assert(cs@.take(0) =~= Seq::<char>::empty());
    while i < cs.len()
        invariant
            i <= cs@.len(),
            out@ == escaped(cs@.take(i as int)),
        decreases cs@.len() - i,
    {
        let c: char = cs[i];
        let ghost before = out@;
        if c == '\\' {
            out.push('\\');
            out.push('\\');
        } else if c == '"' {
            out.push('\\');
            out.push('"');
        } else if c == '\n' {
            out.push('\\');
            out.push('n');
        } else if c == '\r' {
            out.push('\\');
            out.push('r');
        } else if c == '\t' {
            out.push('\\');
            out.push('t');
        } else if c == '\u{8}' {
            out.push('\\');
            out.push('b');
        } else if c == '\u{c}' {
            out.push('\\');
            out.push('f');
        } else {
            out.push(c);
        }
        proof {
            assert(out@ =~= before + escaped_char(c));
            assert(cs@.take(i + 1).drop_last() =~= cs@.take(i as int));
        }
        i += 1;
    }
    assert(cs@.take(i as int) =~= cs@);
    out
}

/// Writes a term in N-Triples syntax.
pub fn serialize_term(value: &str, typ: &TermType) -> (out: String)
    ensures
        out@ == term_text(value@, typ@),
{
    let mut out: String = String::new();
    match typ {
        TermType::Iri => {
            out.push('<');
            out.push_str(value);
            out.push('>');
            assert(out@ =~= term_text(value@, typ@));
        },
        TermType::BlankNode => {
            out.push('_');
            out.push(':');
            out.push_str(value);
            assert(out@ =~= term_text(value@, typ@));
        },
        TermType::Literal { datatype, lang } => {
            out.push('"');
            let body: String = escape_literal(value);
            out.push_str(body.as_str());
            out.push('"');
            match lang {
                Some(l) => {
                    out.push('@');
                    out.push_str(l.as_str());
                },
                None => match datatype {
                    Some(d) => {
                        out.push('^');
                        out.push('^');
                        out.push('<');
                        out.push_str(d.as_str());
                        out.push('>');
                    },
                    None => {},
                },
            }
            assert(out@ =~= term_text(value@, typ@));
        },
    }
    out
}

// --- Reading ---------------------------------------------------------------

/// The value of `n` leading hexadecimal digits.
pub open spec fn hex_number(s: Seq<char>, n: nat) -> Option<int>
    decreases n,
{
    if n == 0 {
        Some(0)
    } else if s.len() < n {
        None
    } else {
        match (hex_number(s, (n - 1) as nat), crate::text::hex_value(s[n - 1])) {
            (Some(v), Some(d)) => Some(v * 16 + d),
            _ => None,
        }
    }
}

/// The character that an escape sequence stands for, and the length of the
/// sequence. The text begins after the backslash.
pub open spec fn unescaped(s: Seq<char>) -> Option<(char, nat)> {
    if s.len() == 0 {
        None
    } else if s[0] == '"' {
        Some(('"', 1))
    } else if s[0] == '\'' {
        Some(('\'', 1))
    } else if s[0] == '\\' {
        Some(('\\', 1))
    } else if s[0] == 'n' {
        Some(('\n', 1))
    } else if s[0] == 'r' {
        Some(('\r', 1))
    } else if s[0] == 't' {
        Some(('\t', 1))
    } else if s[0] == 'b' {
        Some(('\u{8}', 1))
    } else if s[0] == 'f' {
        Some(('\u{c}', 1))
    } else if s[0] == 'u' {
        hex_escape(s.skip(1), 4)
    } else if s[0] == 'U' {
        hex_escape(s.skip(1), 8)
    } else {
        None
    }
}

/// A code point written with `n` hexadecimal digits; the length counts the
/// letter before them.
pub open spec fn hex_escape(s: Seq<char>, n: nat) -> Option<(char, nat)> {
    match hex_number(s, n) {
        Some(v) => match crate::text::scalar_char(v) {
            Some(c) => Some((c, n + 1)),
            None => None,
        },
        None => None,
    }
}

/// The value of a quoted string and what follows its closing quote. The text
/// begins after the opening quote.
pub open spec fn quoted_rest(s: Seq<char>) -> Option<(Seq<char>, Seq<char>)>
    decreases s.len(),
{
    if s.len() == 0 {
        None
    } else if s[0] == '"' {
        Some((Seq::empty(), s.skip(1)))
    } else if s[0] == '\\' {
        match unescaped(s.skip(1)) {
            Some((c, n)) => match quoted_rest(s.skip(1 + n as int)) {
                Some((v, rest)) => Some((seq![c] + v, rest)),
                None => None,
            },
            None => None,
        }
    } else {
        match quoted_rest(s.skip(1)) {
            Some((v, rest)) => Some((seq![s[0]] + v, rest)),
            None => None,
        }
    }
}

/// How many characters come before the first one that `stop` holds of.
pub open spec fn run_length(s: Seq<char>, stop: spec_fn(char) -> bool) -> nat
    decreases s.len(),
{
    if s.len() == 0 || stop(s[0]) {
        0
    } else {
        1 + run_length(s.drop_first(), stop)
    }
}

/// An IRI in angle brackets, and what follows.
pub open spec fn iri_rest(s: Seq<char>) -> Option<(Seq<char>, Seq<char>)> {
    let end = run_length(s, |c: char| c == '>');
    if s.len() > 0 && s[0] == '<' && end < s.len() {
        Some((s.subrange(1, end as int), s.skip(end as int + 1)))
    } else {
        None
    }
}

/// The type of a literal and what follows it. The text begins after the closing
/// quote.
pub open spec fn literal_type_rest(s0: Seq<char>) -> Option<(TermKind, Seq<char>)> {
    let s = crate::text::skip_white(s0);
    if s.len() > 0 && s[0] == '@' {
        let end = run_length(s, |c: char| crate::text::white(c));
        Some((crate::hypertrie::dictionary::tagged(s.subrange(1, end as int)), s.skip(end as int)))
    } else if s.len() > 1 && s[0] == '^' && s[1] == '^' {
        match iri_rest(crate::text::skip_white(s.skip(2))) {
            Some((d, rest)) => Some((crate::hypertrie::dictionary::typed(d), rest)),
            None => None,
        }
    } else {
        Some((crate::hypertrie::dictionary::plain(), s))
    }
}

/// The term at the start of the text, and what follows.
#[verifier::opaque]
pub open spec fn term_rest(s0: Seq<char>) -> Option<(TermText, Seq<char>)> {
    let s = crate::text::skip_white(s0);
    if s.len() == 0 {
        None
    } else if s[0] == '<' {
        match iri_rest(s) {
            Some((v, rest)) => Some((TermText { value: v, typ: TermKind::Iri }, rest)),
            None => None,
        }
    } else if s[0] == '"' {
        match quoted_rest(s.skip(1)) {
            Some((v, rest)) => match literal_type_rest(rest) {
                Some((typ, rest2)) => Some((TermText { value: v, typ }, rest2)),
                None => None,
            },
            None => None,
        }
    } else if s.len() > 1 && s[0] == '_' && s[1] == ':' {
        let after = s.skip(2);
        let end = run_length(after, |c: char| crate::text::white(c));
        if end == 0 {
            None
        } else {
            Some(
                (
                    TermText { value: after.take(end as int), typ: TermKind::BlankNode },
                    after.skip(end as int),
                ),
            )
        }
    } else {
        None
    }
}

/// The triple of one line: three terms and a final dot.
pub open spec fn line_triple(line: Seq<char>) -> Option<TripleText> {
    match term_rest(line) {
        Some((subject, r1)) => match term_rest(crate::text::skip_white(r1)) {
            Some((predicate, r2)) => match term_rest(crate::text::skip_white(r2)) {
                Some((object, r3)) => if crate::text::skip_white(r3) == seq!['.'] {
                    Some(TripleText { subject, predicate, object })
                } else {
                    None
                },
                None => None,
            },
            None => None,
        },
        None => None,
    }
}

/// Length of the run up to the next white character or the end.
fn until_white(cs: &[char], pos: usize) -> (end: usize)
    requires
        pos <= cs@.len(),
    ensures
        pos <= end <= cs@.len(),
        run_length(cs@.skip(pos as int), |c: char| crate::text::white(c)) == end - pos,
{
    let ghost stop = |c: char| crate::text::white(c);
    let mut i: usize = pos;
    while i < cs.len() && !is_white(cs[i])
        invariant
            pos <= i <= cs@.len(),
            stop == (|c: char| crate::text::white(c)),
            run_length(cs@.skip(pos as int), stop) == i - pos + run_length(
                cs@.skip(i as int),
                stop,
            ),
        decreases cs@.len() - i,
    {
        assert(cs@.skip(i as int).drop_first() =~= cs@.skip(i + 1));
        i += 1;
    }
    i
}

/// Position of the next `>`, or the end.
fn until_close(cs: &[char], pos: usize) -> (end: usize)
    requires
        pos <= cs@.len(),
    ensures
        pos <= end <= cs@.len(),
        run_length(cs@.skip(pos as int), |c: char| c == '>') == end - pos,
{
    let ghost stop = |c: char| c == '>';
    let mut i: usize = pos;
    while i < cs.len() && cs[i] != '>'
        invariant
            pos <= i <= cs@.len(),
            stop == (|c: char| c == '>'),
            run_length(cs@.skip(pos as int), stop) == i - pos + run_length(
                cs@.skip(i as int),
                stop,
            ),
        decreases cs@.len() - i,
    {
        assert(cs@.skip(i as int).drop_first() =~= cs@.skip(i + 1));
        i += 1;
    }
    i
}

/// Reads exactly `n` hexadecimal digits as one code point.
pub(crate) fn take_hex(cs: &[char], pos: usize, n: usize) -> (r: Option<char>)
    requires
        pos <= cs@.len(),
        n == 4 || n == 8,
    ensures
        match hex_escape(cs@.skip(pos as int), n as nat) {
            Some((c, _)) => r == Some(c) && pos + n <= cs@.len(),
            None => r is None,
        },
{
    let ghost s = cs@.skip(pos as int);
    let mut code: u64 = 0;
    let mut i: usize = 0;
    let total: usize = cs.len();
    if total - pos < n {
        proof {
            lemma_hex_short(s, n as nat);
        }
        return None;
    }
    while i < n
        invariant
            i <= n,
            n == 4 || n == 8,
            total == cs@.len(),
            pos + n <= total,
            s == cs@.skip(pos as int),
            hex_number(s, i as nat) == Some(code as int),
            i == 0 ==> code == 0,
            i == 1 ==> code < 0x10,
            i == 2 ==> code < 0x100,
            i == 3 ==> code < 0x1000,
            i == 4 ==> code < 0x1_0000,
            i == 5 ==> code < 0x10_0000,
            i == 6 ==> code < 0x100_0000,
            i == 7 ==> code < 0x1000_0000,
            i == 8 ==> code < 0x1_0000_0000,
        decreases n - i,
    {
        assert(s[i as int] == cs@[pos + i]);
        match hex_digit(cs[pos + i]) {
            Some(d) => {
                code = code * 16 + d as u64;
                i += 1;
            },
            None => {
                proof {
                    lemma_hex_bad(s, (i + 1) as nat, n as nat);
                }
                return None;
            },
        }
    }
    char::from_u32(code as u32)
}

proof fn lemma_hex_short(s: Seq<char>, n: nat)
    requires
        s.len() < n,
    ensures
        hex_number(s, n) is None,
{
}

proof fn lemma_hex_bad(s: Seq<char>, i: nat, n: nat)
    requires
        i <= n,
        hex_number(s, i) is None,
    ensures
        hex_number(s, n) is None,
    decreases n,
{
    if i < n {
        lemma_hex_bad(s, i, (n - 1) as nat);
    }
}

/// Reads one escape sequence; the text begins after the backslash.
pub(crate) fn read_escape(cs: &[char], pos: usize) -> (r: Option<(char, usize)>)
    requires
        pos <= cs@.len(),
    ensures
        match r {
            Some((c, next)) => pos < next <= cs@.len() && unescaped(cs@.skip(pos as int)) == Some(
                (c, (next - pos) as nat),
            ),
            None => unescaped(cs@.skip(pos as int)) is None,
        },
{
    if pos >= cs.len() {
        return None;
    }
    let ghost s = cs@.skip(pos as int);
    let e: char = cs[pos];
    assert(s[0] == e);
    assert(s.skip(1) =~= cs@.skip(pos + 1));
    if e == '"' {
        Some(('"', pos + 1))
    } else if e == '\'' {
        Some(('\'', pos + 1))
    } else if e == '\\' {
        Some(('\\', pos + 1))
    } else if e == 'n' {
        Some(('\n', pos + 1))
    } else if e == 'r' {
        Some(('\r', pos + 1))
    } else if e == 't' {
        Some(('\t', pos + 1))
    } else if e == 'b' {
        Some(('\u{8}', pos + 1))
    } else if e == 'f' {
        Some(('\u{c}', pos + 1))
    } else if e == 'u' {
        match take_hex(cs, pos + 1, 4) {
            Some(c) => Some((c, pos + 5)),
            None => None,
        }
    } else if e == 'U' {
        match take_hex(cs, pos + 1, 8) {
            Some(c) => Some((c, pos + 9)),
            None => None,
        }
    } else {
        None
    }
}

/// What `quoted_rest` gives once `v` has been read already.
pub open spec fn prefixed_by(v: Seq<char>, r: Option<(Seq<char>, Seq<char>)>) -> Option<
    (Seq<char>, Seq<char>),
> {
    match r {
        Some((w, rest)) => Some((v + w, rest)),
        None => None,
    }
}

/// Reads a quoted string, resolving escapes; the text begins after the opening
/// quote.
fn parse_quoted_string(cs: &[char], pos: usize) -> (r: Option<(String, usize)>)
    requires
        pos <= cs@.len(),
    ensures
        match r {
            Some((v, next)) => next <= cs@.len() && quoted_rest(cs@.skip(pos as int)) == Some(
                (v@, cs@.skip(next as int)),
            ),
            None => quoted_rest(cs@.skip(pos as int)) is None,
        },
{
    let mut out: String = String::new();
    let mut i: usize = pos;
    proof {
        let r = quoted_rest(cs@.skip(pos as int));
        if r is Some {
            assert(out@ + (r->0).0 =~= (r->0).0);
        }
    }
    while i < cs.len()
        invariant
            pos <= i <= cs@.len(),
            quoted_rest(cs@.skip(pos as int)) == prefixed_by(out@, quoted_rest(cs@.skip(i as int))),
        decreases cs@.len() - i,
    {
        let c: char = cs[i];
        let ghost before = out@;
        let ghost s = cs@.skip(i as int);
        proof {
            assert(s[0] == c);
            assert(s.skip(1) =~= cs@.skip(i + 1));
        }
        if c == '"' {
            proof {
                assert(out@ + Seq::<char>::empty() =~= out@);
            }
            return Some((out, i + 1));
        } else if c == '\\' {
            match read_escape(cs, i + 1) {
                Some((e, next)) => {
                    out.push(e);
                    proof {
                        let n = (next - (i + 1)) as nat;
                        assert(s.skip(1 + n as int) =~= cs@.skip(next as int));
                        lemma_prefixed(before, e, quoted_rest(cs@.skip(next as int)));
                    }
                    i = next;
                },
                None => {
                    return None;
                },
            }
        } else {
            out.push(c);
            proof {
                lemma_prefixed(before, c, quoted_rest(cs@.skip(i + 1)));
            }
            i += 1;
        }
    }
    None
}

proof fn lemma_prefixed(v: Seq<char>, c: char, r: Option<(Seq<char>, Seq<char>)>)
    ensures
        prefixed_by(v, prefixed_by(seq![c], r)) == prefixed_by(v.push(c), r),
{
    if r is Some {
        assert(v + (seq![c] + (r->0).0) =~= v.push(c) + (r->0).0);
    }
}

fn parse_iri(cs: &[char], pos: usize) -> (r: Option<(String, usize)>)
    requires
        pos <= cs@.len(),
    ensures
        match r {
            Some((v, next)) => next <= cs@.len() && iri_rest(cs@.skip(pos as int)) == Some(
                (v@, cs@.skip(next as int)),
            ),
            None => iri_rest(cs@.skip(pos as int)) is None,
        },
{
    if pos >= cs.len() || cs[pos] != '<' {
        return None;
    }
    let end: usize = until_close(cs, pos);
    if end >= cs.len() {
        return None;
    }
    let ghost s = cs@.skip(pos as int);
    assert(s[0] == '<');
    assert(end > pos);
    assert(s.subrange(1, end - pos) =~= cs@.subrange(pos + 1, end as int));
    assert(s.skip(end - pos + 1) =~= cs@.skip(end + 1));
    Some((string_of(slice_subrange(cs, pos + 1, end)), end + 1))
}

fn parse_literal_type(cs: &[char], pos0: usize) -> (r: Option<(TermType, usize)>)
    requires
        pos0 <= cs@.len(),
    ensures
        match r {
            Some((t, next)) => next <= cs@.len() && literal_type_rest(cs@.skip(pos0 as int)) == Some(
                (t@, cs@.skip(next as int)),
            ),
            None => literal_type_rest(cs@.skip(pos0 as int)) is None,
        },
{
    let pos: usize = white_end(cs, pos0);
    let ghost s = cs@.skip(pos as int);
    if pos < cs.len() && cs[pos] == '@' {
        let end: usize = until_white(cs, pos);
        assert(s[0] == '@');
        assert(end > pos);
        assert(s.subrange(1, end - pos) =~= cs@.subrange(pos + 1, end as int));
        assert(s.skip(end - pos) =~= cs@.skip(end as int));
        let lang: String = string_of(slice_subrange(cs, pos + 1, end));
        Some((TermType::literal_lang(lang), end))
    } else if pos < cs.len() && cs[pos] == '^' && cs.len() - pos > 1 && cs[pos + 1] == '^' {
        assert(s[0] == '^' && s[1] == '^');
        assert(s.skip(2) =~= cs@.skip(pos + 2));
        let at: usize = white_end(cs, pos + 2);
        match parse_iri(cs, at) {
            Some((d, next)) => Some((TermType::literal_datatype(d), next)),
            None => None,
        }
    } else {
        Some((TermType::literal_plain(), pos))
    }
}

/// Reads the term at `pos0`.
pub(crate) fn parse_term(cs: &[char], pos0: usize) -> (r: Option<(ParsedTerm, usize)>)
    requires
        pos0 <= cs@.len(),
    ensures
        match r {
            Some((t, next)) => next <= cs@.len() && term_rest(cs@.skip(pos0 as int)) == Some(
                (t@, cs@.skip(next as int)),
            ),
            None => term_rest(cs@.skip(pos0 as int)) is None,
        },
{
    proof {
        reveal(term_rest);
    }
    let pos: usize = white_end(cs, pos0);
    if pos >= cs.len() {
        return None;
    }
    let ghost s = cs@.skip(pos as int);
    let c: char = cs[pos];
    assert(s[0] == c);
    if c == '<' {
        match parse_iri(cs, pos) {
            Some((value, next)) => Some((ParsedTerm { value, typ: TermType::Iri }, next)),
            None => None,
        }
    } else if c == '"' {
        assert(s.skip(1) =~= cs@.skip(pos + 1));
        match parse_quoted_string(cs, pos + 1) {
            Some((value, after)) => match parse_literal_type(cs, after) {
                Some((typ, next)) => Some((ParsedTerm { value, typ }, next)),
                None => None,
            },
            None => None,
        }
    } else if c == '_' && cs.len() - pos > 1 && cs[pos + 1] == ':' {
        assert(s[1] == ':');
        let start: usize = pos + 2;
        let end: usize = until_white(cs, start);
        assert(s.skip(2) =~= cs@.skip(start as int));
        if end == start {
            return None;
        }
        assert(s.skip(2).take(end - start) =~= cs@.subrange(start as int, end as int));
        assert(s.skip(2).skip(end - start) =~= cs@.skip(end as int));
        let value: String = string_of(slice_subrange(cs, start, end));
        Some((ParsedTerm { value, typ: TermType::BlankNode }, end))
    } else {
        None
    }
}

/// What an optional triple reads.
pub open spec fn opt_triple(t: Option<ParsedTriple>) -> Option<TripleText> {
    match t {
        Some(x) => Some(x@),
        None => None,
    }
}

/// Reads one line of N-Triples; nothing if the line is not a triple.
pub fn parse_triple_line(line: &str) -> (r: Option<ParsedTriple>)
    ensures
        opt_triple(r) == line_triple(line@),
{
    let cs: Vec<char> = chars_of(line);
    parse_triple_chars(cs.as_slice())
}

fn parse_triple_chars(cs: &[char]) -> (r: Option<ParsedTriple>)
    ensures
        opt_triple(r) == line_triple(cs@),
{
    assert(cs@.skip(0) =~= cs@);
    match parse_term(cs, 0) {
        Some((subject, p1)) => {
            let p1: usize = white_end(cs, p1);
            match parse_term(cs, p1) {
                Some((predicate, p2)) => {
                    let p2: usize = white_end(cs, p2);
                    match parse_term(cs, p2) {
                        Some((object, p3)) => {
                            let p3: usize = white_end(cs, p3);
                            let ok: bool = p3 < cs.len() && cs.len() - p3 == 1 && cs[p3] == '.';
                            proof {
                                let s = cs@.skip(p3 as int);
                                if ok {
                                    assert(s =~= seq!['.']);
                                } else if s == seq!['.'] {
                                    assert(s.len() == 1);
                                    assert(s[0] == '.');
                                }
                            }
                            if ok {
                                Some(ParsedTriple { subject, predicate, object })
                            } else {
                                None
                            }
                        },
                        None => None,
                    }
                },
                None => None,
            }
        },
        None => None,
    }
}

// --- Documents -------------------------------------------------------------

/// The triples of a list, as text.
pub open spec fn triples_text(ts: Seq<ParsedTriple>) -> Seq<TripleText> {
    ts.map_values(|t: ParsedTriple| t@)
}

/// What one line adds to a document: nothing if it is empty, a comment or not a
/// triple.
pub open spec fn line_adds(line: Seq<char>) -> Seq<TripleText> {
    let l = crate::text::trimmed(line);
    if l.len() == 0 || l[0] == '#' {
        Seq::empty()
    } else {
        match line_triple(l) {
            Some(t) => seq![t],
            None => Seq::empty(),
        }
    }
}

/// The triples of a document, line by line.
pub open spec fn document_triples(text: Seq<char>) -> Seq<TripleText>
    decreases text.len(),
{
    let n = run_length(text, |c: char| c == '\n') as int;
    if 0 <= n < text.len() {
        line_adds(text.take(n)) + document_triples(text.skip(n + 1))
    } else {
        line_adds(text)
    }
}

/// Reads an N-Triples document. Empty lines, comments and lines that are not a
/// triple are skipped.
pub fn parse_ntriples(text: &str) -> (triples: Vec<ParsedTriple>)
    ensures
        triples_text(triples@) == document_triples(text@),
{
    let cs: Vec<char> = chars_of(text);
    let mut triples: Vec<ParsedTriple> = Vec::new();
    let mut pos: usize = 0;
    let n: usize = cs.len();
    proof {
        assert(cs@.skip(0) =~= cs@);
        assert(triples_text(triples@) + document_triples(cs@) =~= document_triples(cs@));
    }
    loop
        invariant_except_break
            n == cs@.len(),
            pos <= n,
            triples_text(triples@) + document_triples(cs@.skip(pos as int)) == document_triples(cs@),
        ensures
            triples_text(triples@) == document_triples(cs@),
        decreases n - pos,
    {
        let end: usize = until_newline(cs.as_slice(), pos);
        let line: &[char] = trim(slice_subrange(cs.as_slice(), pos, end));
        let ghost s = cs@.skip(pos as int);
        let ghost before = triples@;
        proof {
            assert(s.take(end - pos) =~= cs@.subrange(pos as int, end as int));
        }
        if line.len() > 0 && line[0] != '#' {
            match parse_triple_chars(line) {
                Some(t) => {
                    triples.push(t);
                },
                None => {},
            }
        }
        proof {
            assert(triples_text(triples@) =~= triples_text(before) + line_adds(s.take(end - pos)));
        }
        if end < n {
            proof {
                let k = end - pos;
                assert(s.skip(k + 1) =~= cs@.skip(end + 1));
                assert(triples_text(before) + (line_adds(s.take(k)) + document_triples(
                    cs@.skip(end + 1),
                )) =~= triples_text(triples@) + document_triples(cs@.skip(end + 1)));
            }
            pos = end + 1;
        } else {
            proof {
                assert(s.take(end - pos) =~= s);
            }
            break ;
        }
    }
    triples
}

fn until_newline(cs: &[char], pos: usize) -> (end: usize)
    requires
        pos <= cs@.len(),
    ensures
        pos <= end <= cs@.len(),
        run_length(cs@.skip(pos as int), |c: char| c == '\n') == end - pos,
{
    let ghost stop = |c: char| c == '\n';
    let mut i: usize = pos;
    while i < cs.len() && cs[i] != '\n'
        invariant
            pos <= i <= cs@.len(),
            stop == (|c: char| c == '\n'),
            run_length(cs@.skip(pos as int), stop) == i - pos + run_length(
                cs@.skip(i as int),
                stop,
            ),
        decreases cs@.len() - i,
    {
        assert(cs@.skip(i as int).drop_first() =~= cs@.skip(i + 1));
        i += 1;
    }
    i
}

/// The N-Triples line of a triple, without the line break.
pub open spec fn triple_line(t: TripleText) -> Seq<char> {
    term_text(t.subject.value, t.subject.typ) + seq![' '] + term_text(
        t.predicate.value,
        t.predicate.typ,
    ) + seq![' '] + term_text(t.object.value, t.object.typ) + seq![' ', '.']
}

/// The local name under the example namespace, in angle brackets.
pub open spec fn example_iri(name: Seq<char>) -> Seq<char> {
    "<http://example.org/"@ + name + seq!['>']
}

/// One exported line per triple, each under the example namespace.
pub open spec fn exported(triples: Seq<(&str, &str, &str)>) -> Seq<char>
    decreases triples.len(),
{
    if triples.len() == 0 {
        Seq::empty()
    } else {
        let t = triples.last();
        exported(triples.drop_last()) + example_iri(t.0@) + seq![' '] + example_iri(t.1@) + seq![' ']
            + example_iri(t.2@) + seq![' ', '.', '\n']
    }
}

fn push_example_iri(out: &mut String, name: &str)
    ensures
        final(out)@ == old(out)@ + example_iri(name@),
{
    let ghost before = out@;
    out.push_str("<http://example.org/");
    out.push_str(name);
    out.push('>');
    assert(out@ =~= before + example_iri(name@));
}

/// Writes string triples as an N-Triples document, all terms as IRIs under the
/// example namespace.
pub fn export_ntriples(triples: &[(&str, &str, &str)]) -> (out: String)
    ensures
        out@ == exported(triples@),
{
    let mut out: String = String::new();
    let mut i: usize = 0;
    assert(triples@.take(0) =~= Seq::empty());
    while i < triples.len()
        invariant
            i <= triples@.len(),
            out@ == exported(triples@.take(i as int)),
        decreases triples@.len() - i,
    {
        let (s, p, o) = triples[i];
        let ghost before = out@;
        push_example_iri(&mut out, s);
        out.push(' ');
        push_example_iri(&mut out, p);
        out.push(' ');
        push_example_iri(&mut out, o);
        out.push(' ');
        out.push('.');
        out.push('\n');
        proof {
            assert(triples@.take(i + 1).drop_last() =~= triples@.take(i as int));
            assert(out@ =~= before + example_iri(s@) + seq![' '] + example_iri(p@) + seq![' ']
                + example_iri(o@) + seq![' ', '.', '\n']);
        }
        i += 1;
    }
    assert(triples@.take(i as int) =~= triples@);
    out
}

// --- What is written can be read back --------------------------------------

/// No character of the text is white space.
pub open spec fn no_white(s: Seq<char>) -> bool {
    forall|i: int| 0 <= i < s.len() ==> !crate::text::white(#[trigger] s[i])
}

/// Terms that N-Triples can carry: no closing bracket inside an IRI, no white
/// space inside a label or tag, at most one of language and datatype.
pub open spec fn writable(t: TermText) -> bool {
    match t.typ {
        TermKind::Iri => !t.value.contains('>'),
        TermKind::BlankNode => t.value.len() > 0 && no_white(t.value),
        TermKind::Literal { datatype, lang } => match lang {
            Some(l) => datatype is None && no_white(l),
            None => match datatype {
                Some(d) => !d.contains('>'),
                None => true,
            },
        },
    }
}

pub proof fn lemma_run_length(v: Seq<char>, x: char, tail: Seq<char>, stop: spec_fn(char) -> bool)
    requires
        forall|i: int| 0 <= i < v.len() ==> !stop(#[trigger] v[i]),
        stop(x),
    ensures
        run_length(v + seq![x] + tail, stop) == v.len(),
    decreases v.len(),
{
    let s = v + seq![x] + tail;
    if v.len() == 0 {
        assert(s[0] == x);
    } else {
        assert(s[0] == v[0]);
        assert(s.drop_first() =~= v.drop_first() + seq![x] + tail);
        assert forall|i: int| 0 <= i < v.drop_first().len() implies !stop(
            #[trigger] v.drop_first()[i],
        ) by {
            assert(v.drop_first()[i] == v[i + 1]);
        }
        lemma_run_length(v.drop_first(), x, tail, stop);
    }
}

/// The escaped form begins with that of the first character.
pub proof fn lemma_escaped_front(v: Seq<char>)
    requires
        v.len() > 0,
    ensures
        escaped(v) == escaped_char(v[0]) + escaped(v.drop_first()),
    decreases v.len(),
{
    if v.len() == 1 {
        assert(v.drop_last() =~= Seq::<char>::empty());
        assert(v.drop_first() =~= Seq::<char>::empty());
        assert(escaped(v) =~= escaped_char(v[0]) + escaped(v.drop_first()));
    } else {
        lemma_escaped_front(v.drop_last());
        assert(v.drop_last().drop_first() =~= v.drop_first().drop_last());
        assert(v.drop_first().last() == v.last());
        assert(escaped(v) =~= escaped_char(v[0]) + escaped(v.drop_first()));
    }
}

/// Reading an escaped value gives the value back.
pub proof fn lemma_quoted_round_trip(v: Seq<char>, tail: Seq<char>)
    ensures
        quoted_rest(escaped(v) + seq!['"'] + tail) == Some((v, tail)),
    decreases v.len(),
{
    let s = escaped(v) + seq!['"'] + tail;
    if v.len() == 0 {
        assert(s[0] == '"');
        assert(s.skip(1) =~= tail);
        assert(v =~= Seq::<char>::empty());
    } else {
        let c = v[0];
        let w = v.drop_first();
        lemma_escaped_front(v);
        lemma_quoted_round_trip(w, tail);
        let rest = escaped(w) + seq!['"'] + tail;
        assert(s =~= escaped_char(c) + rest);
        assert(seq![c] + w =~= v);
        if escaped_char(c).len() == 2 {
            assert(s[0] == '\\');
            assert(s.skip(1)[0] == escaped_char(c)[1]);
            assert(s.skip(2) =~= rest);
        } else {
            assert(s[0] == c);
            assert(s.skip(1) =~= rest);
        }
    }
}

pub proof fn lemma_iri_round_trip(v: Seq<char>, tail: Seq<char>)
    requires
        !v.contains('>'),
    ensures
        iri_rest(seq!['<'] + v + seq!['>'] + tail) == Some((v, tail)),
{
    let s = seq!['<'] + v + seq!['>'] + tail;
    let stop = |c: char| c == '>';
    let head = seq!['<'] + v;
    assert forall|i: int| 0 <= i < head.len() implies !stop(#[trigger] head[i]) by {
        if i > 0 {
            assert(head[i] == v[i - 1]);
            assert(v.contains(v[i - 1]));
        }
    }
    lemma_run_length(head, '>', tail, stop);
    assert(s =~= head + seq!['>'] + tail);
    assert(s[0] == '<');
    assert(s.subrange(1, head.len() as int) =~= v);
    assert(s.skip(head.len() as int + 1) =~= tail);
}

/// What may follow a term on a line: a blank and something that does not read as
/// a language tag or a datatype.
pub open spec fn line_tail(tail: Seq<char>) -> bool {
    &&& tail.len() > 1
    &&& tail[0] == ' '
    &&& tail[1] != '@'
    &&& tail[1] != '^'
    &&& !crate::text::white(tail[1])
}

/// Reading a term gives the term back, up to white space after it.
spec fn reads_back(t: TermText, tail: Seq<char>) -> bool {
    term_rest(term_text(t.value, t.typ) + tail) matches Some((u, rest)) && u == t
        && crate::text::skip_white(rest) == tail.skip(1)
}

proof fn lemma_tail(tail: Seq<char>)
    requires
        line_tail(tail),
    ensures
        crate::text::skip_white(tail) == tail.skip(1),
{
    reveal_with_fuel(crate::text::skip_white, 3);
    assert(tail.drop_first() =~= tail.skip(1));
}

proof fn lemma_iri_reads_back(v: Seq<char>, tail: Seq<char>)
    requires
        !v.contains('>'),
        line_tail(tail),
    ensures
        reads_back(TermText { value: v, typ: TermKind::Iri }, tail),
{
    reveal(term_rest);
    let s = term_text(v, TermKind::Iri) + tail;
    lemma_tail(tail);
    assert(s[0] == '<');
    assert(s =~= seq!['<'] + v + seq!['>'] + tail);
    lemma_iri_round_trip(v, tail);
}

proof fn lemma_blank_reads_back(v: Seq<char>, tail: Seq<char>)
    requires
        v.len() > 0,
        no_white(v),
        line_tail(tail),
    ensures
        reads_back(TermText { value: v, typ: TermKind::BlankNode }, tail),
{
    reveal(term_rest);
    let s = term_text(v, TermKind::BlankNode) + tail;
    lemma_tail(tail);
    assert(s[0] == '_' && s[1] == ':');
    let after = s.skip(2);
    assert(after =~= v + tail);
    let stop = |c: char| crate::text::white(c);
    assert(after =~= v + seq![' '] + tail.skip(1));
    lemma_run_length(v, ' ', tail.skip(1), stop);
    assert(after.take(v.len() as int) =~= v);
    assert(after.skip(v.len() as int) =~= tail);
}

proof fn lemma_lang_reads_back(v: Seq<char>, l: Seq<char>, tail: Seq<char>)
    requires
        no_white(l),
        line_tail(tail),
    ensures
        reads_back(
            TermText { value: v, typ: TermKind::Literal { datatype: None, lang: Some(l) } },
            tail,
        ),
{
    reveal(term_rest);
    let s = term_text(v, TermKind::Literal { datatype: None, lang: Some(l) }) + tail;
    lemma_tail(tail);
    assert(s[0] == '"');
    let body = s.skip(1);
    let after = seq!['@'] + l + tail;
    assert(body =~= escaped(v) + seq!['"'] + after);
    lemma_quoted_round_trip(v, after);
    assert(after[0] == '@');
    let stop = |c: char| crate::text::white(c);
    let head = seq!['@'] + l;
    assert forall|i: int| 0 <= i < head.len() implies !stop(#[trigger] head[i]) by {
        if i > 0 {
            assert(head[i] == l[i - 1]);
        }
    }
    assert(after =~= head + seq![' '] + tail.skip(1));
    lemma_run_length(head, ' ', tail.skip(1), stop);
    assert(after.subrange(1, head.len() as int) =~= l);
    assert(after.skip(head.len() as int) =~= tail);
}

proof fn lemma_typed_reads_back(v: Seq<char>, d: Seq<char>, tail: Seq<char>)
    requires
        !d.contains('>'),
        line_tail(tail),
    ensures
        reads_back(
            TermText { value: v, typ: TermKind::Literal { datatype: Some(d), lang: None } },
            tail,
        ),
{
    reveal(term_rest);
    let s = term_text(v, TermKind::Literal { datatype: Some(d), lang: None }) + tail;
    lemma_tail(tail);
    assert(s[0] == '"');
    let body = s.skip(1);
    let after = seq!['^', '^', '<'] + d + seq!['>'] + tail;
    assert(body =~= escaped(v) + seq!['"'] + after);
    lemma_quoted_round_trip(v, after);
    assert(after[0] == '^' && after[1] == '^');
    assert(after.skip(2) =~= seq!['<'] + d + seq!['>'] + tail);
    assert(after.skip(2)[0] == '<');
    lemma_iri_round_trip(d, tail);
}

proof fn lemma_plain_reads_back(v: Seq<char>, tail: Seq<char>)
    requires
        line_tail(tail),
    ensures
        reads_back(
            TermText { value: v, typ: TermKind::Literal { datatype: None, lang: None } },
            tail,
        ),
{
    reveal(term_rest);
    let s = term_text(v, TermKind::Literal { datatype: None, lang: None }) + tail;
    lemma_tail(tail);
    assert(s[0] == '"');
    let body = s.skip(1);
    assert(body =~= escaped(v) + seq!['"'] + tail);
    lemma_quoted_round_trip(v, tail);
}

proof fn lemma_term_round_trip(t: TermText, tail: Seq<char>)
    requires
        writable(t),
        line_tail(tail),
    ensures
        reads_back(t, tail),
{
    match t.typ {
        TermKind::Iri => {
            lemma_iri_reads_back(t.value, tail);
        },
        TermKind::BlankNode => {
            lemma_blank_reads_back(t.value, tail);
        },
        TermKind::Literal { datatype, lang } => match lang {
            Some(l) => {
                lemma_lang_reads_back(t.value, l, tail);
            },
            None => match datatype {
                Some(d) => {
                    lemma_typed_reads_back(t.value, d, tail);
                },
                None => {
                    lemma_plain_reads_back(t.value, tail);
                },
            },
        },
    }
}

/// Reading a written line gives the triple back.
pub proof fn law_line_round_trip(t: TripleText)
    requires
        writable(t.subject),
        writable(t.predicate),
        writable(t.object),
    ensures
        line_triple(triple_line(t)) == Some(t),
{
    let a = term_text(t.subject.value, t.subject.typ);
    let b = term_text(t.predicate.value, t.predicate.typ);
    let c = term_text(t.object.value, t.object.typ);
    let end = seq![' ', '.'];
    let t2 = seq![' '] + c + end;
    let t1 = seq![' '] + b + t2;
    assert(triple_line(t) =~= a + t1);
    assert(t1[1] == b[0]);
    assert(t2[1] == c[0]);
    assert(line_tail(t1));
    assert(line_tail(t2));
    assert(line_tail(end));
    lemma_term_round_trip(t.subject, t1);
    assert(t1.skip(1) =~= b + t2);
    lemma_term_round_trip(t.predicate, t2);
    assert(t2.skip(1) =~= c + end);
    lemma_term_round_trip(t.object, end);
    assert(end.skip(1) =~= seq!['.']);
    let r1 = (term_rest(triple_line(t))->0).1;
    assert(crate::text::skip_white(r1) == b + t2);
    let r2 = (term_rest(b + t2)->0).1;
    assert(crate::text::skip_white(r2) == c + end);
    let r3 = (term_rest(c + end)->0).1;
    assert(crate::text::skip_white(r3) == seq!['.']);
}

} // verus!
