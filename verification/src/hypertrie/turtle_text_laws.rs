//! The characters of strings, relative references, and lines.

use crate::hypertrie::dictionary::TermKind;
use crate::hypertrie::export::{
    document_triples, exported, hex_number, law_line_round_trip, line_adds, run_length, term_text,
    triple_line, unescaped, writable, TermText, TripleText,
};
use crate::hypertrie::query::rdf_triples;
use crate::hypertrie::turtle::{base_decl, turtle_triples, Doc};
use crate::hypertrie::turtle_laws::{bracketable, lemma_iri_chars, lemma_one_space, lemma_parts, stands};
use crate::hypertrie::turtle_terms::{
    after_slash, at, breaks, closed_at, error_at, find_part, hex_char_at, hex_from, iri_at, path_start, resolved, short_escape,
    line_to, space_to, string_at, string_chars, white_to, Names,
};
use crate::text::{
    decimal, drop_white_end, has_part, has_prefix, hex_value, part_at, skip_white, trimmed, white,
};
use vstd::prelude::*;

verus! {

// --- Strings ---------------------------------------------------------------------------

/// The letter that stands for a character behind a backslash, by its code point.
pub open spec fn escape_letter(c: char) -> Option<char> {
    if c as int == 0x08 {
        Some('b')
    } else if c as int == 0x09 {
        Some('t')
    } else if c as int == 0x0A {
        Some('n')
    } else if c as int == 0x0C {
        Some('f')
    } else if c as int == 0x0D {
        Some('r')
    } else if c as int == 0x22 || c as int == 0x27 || c as int == 0x5C {
        Some(c)
    } else {
        None
    }
}

/// An escape stands for the character that has this letter, and for no other.
pub proof fn law_escapes(c: char, letter: char)
    ensures
        short_escape(letter) == Some(c) <==> escape_letter(c) == Some(letter),
{
}

/// A character in a string: escaped where it has a letter.
pub open spec fn string_char(c: char) -> Seq<char> {
    match escape_letter(c) {
        Some(letter) => seq!['\\', letter],
        None => seq![c],
    }
}

/// The characters of a string, from number `k` on.
pub open spec fn string_text(v: Seq<char>, k: int) -> Seq<char>
    decreases v.len() - k,
{
    if k < 0 || k >= v.len() {
        Seq::empty()
    } else {
        string_char(v[k]) + string_text(v, k + 1)
    }
}

/// The quotes around a string: one, or three.
pub open spec fn quotes(quote: char, long: bool) -> Seq<char> {
    if long {
        seq![quote, quote, quote]
    } else {
        seq![quote]
    }
}

/// A written string is read back up to its quotes, whichever they are.
pub proof fn law_string_reads(cs: Seq<char>, pos: int, v: Seq<char>, k: int, acc: Seq<char>, quote: char, long: bool)
    requires
        quote == '"' || quote == '\'',
        0 <= k <= v.len(),
        stands(cs, pos, string_text(v, k) + quotes(quote, long)),
    ensures
        string_chars(cs, pos, acc, quote, long) == Ok::<(Seq<char>, int), Seq<char>>(
            (acc + v.skip(k), pos + string_text(v, k).len() + quotes(quote, long).len()),
        ),
    decreases v.len() - k,
{
    let close = quotes(quote, long);
    if k == v.len() {
        assert(string_text(v, k) + close =~= close);
        assert(cs[pos + 0] == close[0]);
        if long {
            assert(cs[pos + 1] == close[1] && cs[pos + 2] == close[2]);
        }
        assert(acc + v.skip(k) =~= acc);
    } else {
        let c = v[k];
        let one = string_char(c);
        let more = string_text(v, k + 1) + close;
        assert(string_text(v, k) + close =~= one + more);
        lemma_parts(cs, pos, one, more);
        assert(cs[pos + 0] == one[0]);
        law_string_reads(cs, pos + one.len(), v, k + 1, acc.push(c), quote, long);
        assert(acc.push(c) + v.skip(k + 1) =~= acc + v.skip(k));
        if escape_letter(c) is Some {
            assert(cs[pos + 1] == one[1]);
            law_escapes(c, one[1]);
        }
        assert(!closed_at(cs, pos, quote, long));
    }
}

/// A written string is read back, between either quotes, one or three of them.
pub proof fn law_quoted_string_reads(cs: Seq<char>, pos: int, v: Seq<char>, quote: char, long: bool)
    requires
        quote == '"' || quote == '\'',
        stands(cs, pos, quotes(quote, long) + (string_text(v, 0) + quotes(quote, long))),
        !long && v.len() == 0 ==> !at(cs, pos + 2, quote),
    ensures
        string_at(cs, pos) == Ok::<(Seq<char>, int), Seq<char>>(
            (v, pos + string_text(v, 0).len() + 2 * quotes(quote, long).len()),
        ),
{
    let open = quotes(quote, long);
    let body = string_text(v, 0);
    lemma_parts(cs, pos, open, body + open);
    assert(cs[pos + 0] == open[0]);
    law_string_reads(cs, pos + open.len(), v, 0, Seq::empty(), quote, long);
    assert(Seq::<char>::empty() + v.skip(0) =~= v);
    if long {
        assert(cs[pos + 1] == open[1] && cs[pos + 2] == open[2]);
    } else {
        lemma_parts(cs, pos + 1, body, open);
        if v.len() > 0 {
            let one = string_char(v[0]);
            assert(body =~= one + string_text(v, 1));
            assert(body[0] == one[0]);
            assert(cs[pos + 1 + 0] == body[0]);
        } else {
            assert(cs[pos + 1 + body.len() + 0] == open[0]);
        }
    }
}

/// A comment counts as space, up to the end of its line.
pub proof fn law_comments(cs: Seq<char>, pos: int, text: Seq<char>)
    requires
        !text.contains('\n'),
        stands(cs, pos, seq!['#'] + text + seq!['\n']),
        pos + text.len() + 2 < cs.len() ==> !white(cs[pos + text.len() + 2]) && cs[pos + text.len() + 2] != '#',
    ensures
        space_to(cs, pos) == pos + text.len() + 2,
{
    assert(seq!['#'] + text + seq!['\n'] =~= (seq!['#'] + text) + seq!['\n']);
    lemma_parts(cs, pos, seq!['#'] + text, seq!['\n']);
    lemma_parts(cs, pos, seq!['#'], text);
    assert(cs[pos + 0] == seq!['#'][0]);
    let end = pos + 1 + text.len();
    assert(cs[end + 0] == seq!['\n'][0]);
    lemma_line_to(cs, pos + 1, text);
    assert(line_to(cs, pos) == end);
    assert(white_to(cs, pos) == pos);
    lemma_one_space(cs, end);
    assert(space_to(cs, end) == end + 1);
}

proof fn lemma_line_to(cs: Seq<char>, pos: int, text: Seq<char>)
    requires
        stands(cs, pos, text),
        !text.contains('\n'),
        at(cs, pos + text.len(), '\n'),
    ensures
        line_to(cs, pos) == pos + text.len(),
    decreases text.len(),
{
    if text.len() > 0 {
        assert(cs[pos + 0] == text[0]);
        assert(text.contains(text[0]));
        let rest = text.skip(1);
        assert(text =~= seq![text[0]] + rest);
        lemma_parts(cs, pos, seq![text[0]], rest);
        assert(!rest.contains('\n')) by {
            if rest.contains('\n') {
                let i = choose|i: int| 0 <= i < rest.len() && rest[i] == '\n';
                assert(text[i + 1] == '\n');
            }
        }
        lemma_line_to(cs, pos + 1, rest);
    }
}

// --- References ------------------------------------------------------------------------

/// The reference is relative to the place of the base.
pub open spec fn is_relative(r: Seq<char>) -> bool {
    &&& r.len() > 0
    &&& !has_part(r, "://"@)
    &&& !has_prefix(r, "urn:"@)
}

proof fn lemma_after_slash(s: Seq<char>, dir: Seq<char>, end: int)
    requires
        dir.len() > 0,
        dir.last() == '/',
        dir.len() <= end <= s.len(),
        s.take(dir.len() as int) == dir,
        forall|i: int| dir.len() <= i < end ==> s[i] != '/',
    ensures
        after_slash(s, end) == dir.len(),
    decreases end,
{
    if end == dir.len() {
        assert(s[end - 1] == dir[end - 1]);
    } else {
        lemma_after_slash(s, dir, end - 1);
    }
}

proof fn lemma_found(s: Seq<char>, part: Seq<char>, i: int, k: int)
    requires
        0 <= i <= k <= s.len(),
        forall|j: int| i <= j < k ==> !part_at(s, part, j),
        k == s.len() || part_at(s, part, k),
    ensures
        find_part(s, part, i) == k,
    decreases k - i,
{
    if i < k {
        lemma_found(s, part, i + 1, k);
    }
}

proof fn lemma_single(s: Seq<char>, w: Seq<char>, i: int)
    requires
        w.len() == 1,
        0 <= i < s.len(),
    ensures
        part_at(s, w, i) <==> s[i] == w[0],
{
    let x = s.subrange(i, i + 1);
    assert(x[0] == s[i]);
    if s[i] == w[0] {
        assert(x =~= w);
    }
}

/// A reference without a base, an absolute reference and an empty one: they stand for
/// themselves, and the empty one for the base.
pub proof fn law_absolute_references(b: Seq<char>, r: Seq<char>)
    ensures
        resolved(None, r) == r,
        resolved(Some(b), Seq::empty()) == b,
        r.len() > 0 && !is_relative(r) ==> resolved(Some(b), r) == r,
{
}

/// A relative reference stands beside the last part of the base.
pub proof fn law_relative_reference(dir: Seq<char>, last: Seq<char>, r: Seq<char>)
    requires
        dir.len() > 0,
        dir.last() == '/',
        !last.contains('/'),
        is_relative(r),
        r[0] != '#',
        r[0] != '/',
    ensures
        resolved(Some(dir + last), r) == dir + r,
{
    let b = dir + last;
    assert forall|i: int| dir.len() <= i < b.len() implies b[i] != '/' by {
        assert(b[i] == last[i - dir.len()]);
        assert(last.contains(last[i - dir.len()]) );
    }
    assert(b.take(dir.len() as int) =~= dir);
    lemma_after_slash(b, dir, b.len() as int);
}

/// A fragment replaces the fragment of the base.
pub proof fn law_fragment_reference(doc: Seq<char>, old_fragment: Seq<char>, r: Seq<char>)
    requires
        !doc.contains('#'),
        old_fragment.len() > 0 ==> old_fragment[0] == '#',
        is_relative(r),
        r[0] == '#',
    ensures
        resolved(Some(doc + old_fragment), r) == doc + r,
{
    let b = doc + old_fragment;
    let k = doc.len() as int;
    reveal_strlit("#");
    assert forall|j: int| 0 <= j < k implies !part_at(b, "#"@, j) by {
        lemma_single(b, "#"@, j);
        assert(b[j] == doc[j]);
        assert(doc.contains(doc[j]));
    }
    if k < b.len() {
        lemma_single(b, "#"@, k);
        assert(b[k] == old_fragment[0]);
    }
    lemma_found(b, "#"@, 0, k);
    assert(b.take(k) =~= doc);
}

/// A reference that begins with a slash replaces the path of the base.
pub proof fn law_path_reference(scheme: Seq<char>, host: Seq<char>, path: Seq<char>, r: Seq<char>)
    requires
        !scheme.contains(':'),
        !host.contains('/'),
        path.len() > 0 ==> path[0] == '/',
        is_relative(r),
        r[0] == '/',
    ensures
        resolved(Some(scheme + "://"@ + host + path), r) == scheme + "://"@ + host + r,
{
    let b = scheme + "://"@ + host + path;
    let k = scheme.len() as int;
    let start = scheme + "://"@ + host;
    let m = start.len() as int;
    reveal_strlit("://");
    reveal_strlit("/");
    assert forall|j: int| 0 <= j < k implies !part_at(b, "://"@, j) by {
        if part_at(b, "://"@, j) {
            assert(b.subrange(j, j + 3)[0] == ':');
            assert(b[j] == scheme[j]);
            assert(scheme.contains(scheme[j]));
        }
    }
    assert(b.subrange(k, k + 3) =~= "://"@);
    lemma_found(b, "://"@, 0, k);
    assert forall|j: int| k + 3 <= j < m implies !part_at(b, "/"@, j) by {
        lemma_single(b, "/"@, j);
        assert(b[j] == host[j - k - 3]);
        assert(host.contains(host[j - k - 3]));
    }
    if m < b.len() {
        lemma_single(b, "/"@, m);
        assert(b[m] == path[0]);
    }
    lemma_found(b, "/"@, k + 3, m);
    assert(path_start(b) == m);
    assert(b.take(m) =~= start);
}


// --- Code points -----------------------------------------------------------------------

/// The hexadecimal digit of a number below sixteen.
pub open spec fn hex_letter(d: int) -> char {
    if d < 10 {
        ('0' as int + d) as char
    } else {
        ('A' as int + (d - 10)) as char
    }
}

/// A number below 65536 in four hexadecimal digits.
pub open spec fn four_digits(v: int) -> Seq<char> {
    seq![hex_letter(v / 4096), hex_letter(v / 256 % 16), hex_letter(v / 16 % 16), hex_letter(v % 16)]
}

proof fn lemma_hex_letter(d: int)
    requires
        0 <= d < 16,
    ensures
        hex_value(hex_letter(d)) == Some(d),
{
}

proof fn lemma_four_digits(v: int)
    requires
        0 <= v < 0x10000,
    ensures
        ({
            let s = four_digits(v);
            &&& hex_value(s[0]) == Some(v / 4096)
            &&& hex_value(s[1]) == Some(v / 256 % 16)
            &&& hex_value(s[2]) == Some(v / 16 % 16)
            &&& hex_value(s[3]) == Some(v % 16)
            &&& (((v / 4096) * 16 + v / 256 % 16) * 16 + v / 16 % 16) * 16 + v % 16 == v
        }),
{
    lemma_hex_letter(v / 4096);
    lemma_hex_letter(v / 256 % 16);
    lemma_hex_letter(v / 16 % 16);
    lemma_hex_letter(v % 16);
}

/// An escape of four hexadecimal digits stands for the character with that code point, in
/// Turtle and in N-Triples.
pub proof fn law_code_points(cs: Seq<char>, pos: int, c: char, rest: Seq<char>)
    requires
        (c as int) < 0x10000,
        stands(cs, pos, four_digits(c as int)),
    ensures
        hex_char_at(cs, pos, 4) == Ok::<(char, int), Seq<char>>((c, pos + 4)),
        unescaped(seq!['u'] + four_digits(c as int) + rest) == Some((c, 5nat)),
{
    let v = c as int;
    let d = four_digits(v);
    lemma_four_digits(v);
    assert(cs[pos + 0] == d[0] && cs[pos + 1] == d[1] && cs[pos + 2] == d[2] && cs[pos + 3] == d[3]);
    reveal_with_fuel(hex_from, 5);
    assert(hex_from(cs, pos, 4, 0) == Ok::<(int, int), Seq<char>>((v, pos + 4)));
    let s = seq!['u'] + d + rest;
    let t = s.skip(1);
    assert(t[0] == d[0] && t[1] == d[1] && t[2] == d[2] && t[3] == d[3]);
    reveal_with_fuel(hex_number, 5);
    assert(hex_number(t, 4) == Some(v));
}

/// In N-Triples the same letters stand for the same characters.
pub proof fn law_line_escapes(c: char, letter: char, rest: Seq<char>)
    requires
        letter != 'u',
        letter != 'U',
    ensures
        unescaped(seq![letter] + rest) == Some((c, 1nat)) <==> escape_letter(c) == Some(letter),
{
    assert((seq![letter] + rest)[0] == letter);
}

// --- Lines -----------------------------------------------------------------------------

/// A line of an N-Triples document: a triple, a comment, or nothing.
pub enum Line {
    Triple(TripleText),
    Comment(Seq<char>),
    Nothing,
}

pub open spec fn line_text(l: Line) -> Seq<char> {
    match l {
        Line::Triple(t) => triple_line(t),
        Line::Comment(s) => seq!['#'] + s,
        Line::Nothing => Seq::empty(),
    }
}

/// The line breaks are those between lines.
pub open spec fn line_ok(l: Line) -> bool {
    match l {
        Line::Triple(t) => writable(t.subject) && writable(t.predicate) && writable(t.object)
            && !triple_line(t).contains('\n'),
        Line::Comment(s) => !s.contains('\n'),
        Line::Nothing => true,
    }
}

pub open spec fn lines_text(ls: Seq<Line>) -> Seq<char>
    decreases ls.len(),
{
    if ls.len() == 0 {
        Seq::empty()
    } else {
        line_text(ls[0]) + seq!['\n'] + lines_text(ls.skip(1))
    }
}

/// The triples of the lines.
pub open spec fn line_triples(ls: Seq<Line>) -> Seq<TripleText>
    decreases ls.len(),
{
    if ls.len() == 0 {
        Seq::empty()
    } else {
        (match ls[0] {
            Line::Triple(t) => seq![t],
            _ => Seq::empty(),
        }) + line_triples(ls.skip(1))
    }
}

proof fn lemma_run(s: Seq<char>, rest: Seq<char>)
    requires
        !s.contains('\n'),
    ensures
        run_length(s + seq!['\n'] + rest, |c: char| c == '\n') == s.len(),
    decreases s.len(),
{
    let all = s + seq!['\n'] + rest;
    if s.len() > 0 {
        assert(s.contains(s[0]));
        let less = s.drop_first();
        assert(!less.contains('\n')) by {
            if less.contains('\n') {
                let i = choose|i: int| 0 <= i < less.len() && less[i] == '\n';
                assert(s[i + 1] == '\n');
            }
        }
        lemma_run(less, rest);
        assert(all.drop_first() =~= less + seq!['\n'] + rest);
        assert(all[0] == s[0]);
    } else {
        assert(all[0] == '\n');
    }
}

proof fn lemma_first_char(s: Seq<char>)
    requires
        s.len() > 0,
        !white(s[0]),
    ensures
        trimmed(s).len() > 0,
        trimmed(s)[0] == s[0],
    decreases s.len(),
{
    lemma_drop_end(s);
}

proof fn lemma_drop_end(s: Seq<char>)
    requires
        s.len() > 0,
        !white(s[0]),
    ensures
        drop_white_end(s).len() > 0,
        drop_white_end(s)[0] == s[0],
    decreases s.len(),
{
    if white(s.last()) {
        assert(s.len() > 1);
        lemma_drop_end(s.drop_last());
    }
}

proof fn lemma_line_adds(l: Line)
    requires
        line_ok(l),
    ensures
        line_adds(line_text(l)) == match l {
            Line::Triple(t) => seq![t],
            _ => Seq::<TripleText>::empty(),
        },
{
    match l {
        Line::Triple(t) => {
            let s = triple_line(t);
            law_line_round_trip(t);
            let a = term_text(t.subject.value, t.subject.typ);
            assert(s[0] == a[0]);
            assert(a[0] == '<' || a[0] == '_' || a[0] == '"');
            assert(s.last() == '.');
            assert(skip_white(s) == s);
            assert(drop_white_end(s) == s);
        },
        Line::Comment(s) => {
            let all = line_text(l);
            assert(all[0] == '#');
            lemma_first_char(all);
        },
        Line::Nothing => {
            assert(trimmed(line_text(l)).len() == 0);
        },
    }
}

/// An N-Triples document is read as the triples of its lines, in their order; comments and
/// empty lines add nothing.
pub proof fn law_ntriples_lines(ls: Seq<Line>)
    requires
        forall|i: int| 0 <= i < ls.len() ==> line_ok(#[trigger] ls[i]),
    ensures
        document_triples(lines_text(ls)) == line_triples(ls),
    decreases ls.len(),
{
    let text = lines_text(ls);
    if ls.len() == 0 {
        lemma_line_adds(Line::Nothing);
        assert(run_length(text, |c: char| c == '\n') == 0);
    } else {
        let one = line_text(ls[0]);
        let more = ls.skip(1);
        assert(line_ok(ls[0]));
        assert(!one.contains('\n')) by {
            if let Line::Comment(s) = ls[0] {
                if one.contains('\n') {
                    let i = choose|i: int| 0 <= i < one.len() && one[i] == '\n';
                    assert(s[i - 1] == '\n');
                }
            }
        }
        lemma_run(one, lines_text(more));
        assert(text.take(one.len() as int) =~= one);
        assert(text.skip(one.len() as int + 1) =~= lines_text(more));
        assert forall|i: int| 0 <= i < more.len() implies line_ok(#[trigger] more[i]) by {
            assert(more[i] == ls[i + 1]);
        }
        law_ntriples_lines(more);
        lemma_line_adds(ls[0]);
    }
}


/// The names as the IRIs of the example namespace.
pub open spec fn example_triple(t: (&str, &str, &str)) -> TripleText {
    TripleText {
        subject: TermText { value: "http://example.org/"@ + t.0@, typ: TermKind::Iri },
        predicate: TermText { value: "http://example.org/"@ + t.1@, typ: TermKind::Iri },
        object: TermText { value: "http://example.org/"@ + t.2@, typ: TermKind::Iri },
    }
}

proof fn lemma_more_lines(ls: Seq<Line>, l: Line)
    ensures
        lines_text(ls.push(l)) == lines_text(ls) + line_text(l) + seq!['\n'],
    decreases ls.len(),
{
    let all = ls.push(l);
    if ls.len() == 0 {
        assert(all.skip(1) =~= Seq::<Line>::empty());
        assert(lines_text(all.skip(1)) =~= Seq::<char>::empty());
        assert(lines_text(ls) =~= Seq::<char>::empty());
        assert(lines_text(all) =~= lines_text(ls) + line_text(l) + seq!['\n']);
    } else {
        lemma_more_lines(ls.skip(1), l);
        assert(all.skip(1) =~= ls.skip(1).push(l));
        assert(lines_text(all) =~= lines_text(ls) + line_text(l) + seq!['\n']);
    }
}

/// An export has a line for each triple, in the example namespace, in their order.
pub proof fn law_exported_lines(ts: Seq<(&str, &str, &str)>)
    ensures
        exported(ts) == lines_text(ts.map_values(|t: (&str, &str, &str)| Line::Triple(example_triple(t)))),
    decreases ts.len(),
{
    let f = |t: (&str, &str, &str)| Line::Triple(example_triple(t));
    let ls = ts.map_values(f);
    if ts.len() == 0 {
        assert(exported(ts) =~= lines_text(ls));
    } else {
        let less = ts.drop_last();
        let t = ts.last();
        law_exported_lines(less);
        assert(ls =~= less.map_values(f).push(f(t)));
        lemma_more_lines(less.map_values(f), f(t));
        reveal_strlit("<http://example.org/");
        reveal_strlit("http://example.org/");
        assert("<http://example.org/"@ =~= seq!['<'] + "http://example.org/"@);
        assert(exported(ts) =~= exported(less) + triple_line(example_triple(t)) + seq!['\n']);
    }
}

// --- Documents -------------------------------------------------------------------------

/// A file is read by its name: as Turtle if it ends so, else line by line.
pub proof fn law_format_by_name(stem: Seq<char>, name: Seq<char>, text: Seq<char>)
    ensures
        rdf_triples(stem + ".ttl"@, text) == turtle_triples(text),
        name.len() < 4 || name.skip(name.len() - 4) != ".ttl"@ ==> rdf_triples(name, text) == Ok::<
            Seq<TripleText>,
            Seq<char>,
        >(document_triples(text)),
{
    reveal_strlit(".ttl");
    let all = stem + ".ttl"@;
    assert(all.subrange(all.len() - 4, all.len() as int) =~= ".ttl"@);
    if name.len() >= 4 {
        assert(name.skip(name.len() - 4) =~= name.subrange(name.len() - 4, name.len() as int));
    }
}

/// An error says on which line it is: one more than the line breaks before it.
pub proof fn law_error_lines(cs: Seq<char>, pos: int, msg: Seq<char>)
    requires
        0 <= pos <= cs.len(),
    ensures
        error_at(cs, pos, msg) == "line "@ + decimal(cs.take(pos).filter(|c: char| c == '\n').len() + 1) + ": "@
            + msg,
{
    lemma_breaks(cs, pos);
}

proof fn lemma_breaks(cs: Seq<char>, pos: int)
    requires
        0 <= pos <= cs.len(),
    ensures
        breaks(cs, pos) == cs.take(pos).filter(|c: char| c == '\n').len(),
    decreases pos,
{
    reveal(Seq::filter);
    let s = cs.take(pos);
    if pos > 0 {
        lemma_breaks(cs, pos - 1);
        assert(s.drop_last() =~= cs.take(pos - 1));
        assert(s.last() == cs[pos - 1]);
    } else {
        assert(s =~= Seq::<char>::empty());
    }
}

/// An IRI in a document stands for what it is resolved to against the base.
pub proof fn law_iri_resolved(cs: Seq<char>, pos: int, v: Seq<char>, base: Option<Seq<char>>)
    requires
        stands(cs, pos, seq!['<'] + v + seq!['>']),
        bracketable(v),
    ensures
        iri_at(cs, pos, base) == Ok::<(Seq<char>, int), Seq<char>>((resolved(base, v), pos + v.len() + 2)),
{
    assert(seq!['<'] + v + seq!['>'] =~= seq!['<'] + (v + seq!['>']));
    lemma_parts(cs, pos, seq!['<'], v + seq!['>']);
    lemma_iri_chars(cs, pos + 1, v, Seq::empty());
    assert(Seq::<char>::empty() + v =~= v);
}

/// A declared base counts from then on; nothing else changes.
pub proof fn law_base_declaration(cs: Seq<char>, start: int, v: Seq<char>, d: Doc)
    requires
        bracketable(v),
        at(cs, start, ' '),
        stands(cs, start + 1, seq!['<'] + v + seq!['>']),
        at(cs, start + 3 + v.len(), ' '),
        at(cs, start + 4 + v.len(), '.'),
    ensures
        base_decl(cs, start, d, true) == Ok::<((), int, Doc), Seq<char>>(
            (
                (),
                start + 5 + v.len(),
                Doc {
                    names: Names { base: Some(resolved(d.names.base, v)), prefixes: d.names.prefixes },
                    out: d.out,
                    fresh: d.fresh,
                },
            ),
        ),
{
    let w = seq!['<'] + v + seq!['>'];
    assert(cs[start + 1 + 0] == w[0]);
    lemma_one_space(cs, start);
    law_iri_resolved(cs, start + 1, v, d.names.base);
    lemma_one_space(cs, start + 3 + v.len());
}

} // verus!
