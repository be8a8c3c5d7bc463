//! Turtle reads N-Triples: what is written line by line is read as those triples.

use crate::hypertrie::dictionary::TermKind;
use crate::hypertrie::export::{
    escaped, escaped_char, law_line_round_trip, lemma_escaped_front, line_triple, term_text, triple_line,
    writable, TermText, TripleText,
};
use crate::hypertrie::turtle::{
    document_from, empty_doc, keyword_at, object_at, objects_at, predicates_at, same_letter,
    statement_at, triples_at, turtle_triples, with_triple, Doc,
};
use crate::hypertrie::turtle_terms::{
    at, iri_at, iri_chars, lang_char, lang_to, name_char, name_end, name_to, short_escape, space_to,
    string_at, string_chars, term_at, white_to,
};
use crate::text::{part_at, white};
use vstd::prelude::*;

verus! {

/// Terms whose N-Triples form Turtle reads as the same term: no closing bracket and
/// no backslash in an IRI, a label of name characters that does not begin with an
/// underscore nor end with a dot, a language tag of letters, digits and hyphens, at
/// most one of language and datatype.
pub open spec fn turtle_writable(t: TermText) -> bool {
    match t.typ {
        TermKind::Iri => bracketable(t.value),
        TermKind::BlankNode => {
            &&& t.value.len() > 0
            &&& t.value[0] != '_'
            &&& t.value.last() != '.'
            &&& forall|i: int| 0 <= i < t.value.len() ==> name_char(#[trigger] t.value[i])
        },
        TermKind::Literal { datatype, lang } => match lang {
            Some(l) => {
                &&& datatype is None
                &&& l.len() > 0
                &&& forall|i: int| 0 <= i < l.len() ==> lang_char(#[trigger] l[i])
            },
            None => match datatype {
                Some(d) => bracketable(d),
                None => true,
            },
        },
    }
}

/// An IRI that can stand in brackets as it is.
pub open spec fn bracketable(v: Seq<char>) -> bool {
    !v.contains('>') && !v.contains('\\')
}

pub open spec fn triple_writable(t: TripleText) -> bool {
    turtle_writable(t.subject) && turtle_writable(t.predicate) && turtle_writable(t.object)
}

/// A document with one line for each triple.
pub open spec fn lines_of(ts: Seq<TripleText>) -> Seq<char>
    decreases ts.len(),
{
    if ts.len() == 0 {
        Seq::empty()
    } else {
        triple_line(ts[0]) + seq!['\n'] + lines_of(ts.skip(1))
    }
}

/// The text stands at the position.
pub open spec fn stands(cs: Seq<char>, pos: int, part: Seq<char>) -> bool {
    0 <= pos && pos + part.len() <= cs.len() && forall|k: int|
        #![trigger part[k]]
        0 <= k < part.len() ==> cs[pos + k] == part[k]
}

/// The parts of a text that stands somewhere stand one after the other.
pub proof fn lemma_parts(cs: Seq<char>, pos: int, a: Seq<char>, b: Seq<char>)
    requires
        stands(cs, pos, a + b),
    ensures
        stands(cs, pos, a),
        stands(cs, pos + a.len(), b),
{
    let all = a + b;
    assert forall|k: int| #![trigger a[k]] 0 <= k < a.len() implies cs[pos + k] == a[k] by {
        assert(all[k] == a[k]);
    }
    assert forall|k: int| #![trigger b[k]] 0 <= k < b.len() implies cs[pos + a.len() + k] == b[k] by {
        assert(all[a.len() + k] == b[k]);
    }
}

// --- White space -----------------------------------------------------------------------

/// Where something else stands, there is no space.
pub proof fn lemma_no_space(cs: Seq<char>, pos: int)
    requires
        0 <= pos < cs.len(),
        !white(cs[pos]),
        cs[pos] != '#',
    ensures
        space_to(cs, pos) == pos,
{
}

/// Where one white character stands, the space ends after it.
pub proof fn lemma_one_space(cs: Seq<char>, pos: int)
    requires
        0 <= pos < cs.len(),
        white(cs[pos]),
        cs[pos] != '#',
        pos + 1 < cs.len() ==> !white(cs[pos + 1]) && cs[pos + 1] != '#',
    ensures
        space_to(cs, pos) == pos + 1,
{
    reveal_with_fuel(white_to, 3);
}

// --- Terms -----------------------------------------------------------------------------

/// The characters of an IRI are read up to its closing bracket.
pub proof fn lemma_iri_chars(cs: Seq<char>, pos: int, v: Seq<char>, acc: Seq<char>)
    requires
        stands(cs, pos, v + seq!['>']),
        bracketable(v),
    ensures
        iri_chars(cs, pos, acc) == Ok::<(Seq<char>, int), Seq<char>>((acc + v, pos + v.len() + 1)),
    decreases v.len(),
{
    let all = v + seq!['>'];
    if v.len() == 0 {
        assert(all[0] == '>');
        assert(acc + v =~= acc);
    } else {
        let c = v[0];
        let w = v.drop_first();
        assert(all[0] == c);
        assert(v.contains(c));
        let rest = w + seq!['>'];
        assert forall|k: int| #![trigger rest[k]] 0 <= k < rest.len() implies cs[pos + 1 + k] == rest[k] by {
            assert(all[k + 1] == rest[k]);
        }
        assert(bracketable(w)) by {
            if w.contains('>') {
                let k = choose|k: int| 0 <= k < w.len() && w[k] == '>';
                assert(v[k + 1] == '>');
            }
            if w.contains('\\') {
                let k = choose|k: int| 0 <= k < w.len() && w[k] == '\\';
                assert(v[k + 1] == '\\');
            }
        }
        lemma_iri_chars(cs, pos + 1, w, acc.push(c));
        assert(acc.push(c) + w =~= acc + v);
    }
}

/// A written IRI is read.
pub proof fn lemma_iri(cs: Seq<char>, pos: int, v: Seq<char>)
    requires
        stands(cs, pos, seq!['<'] + v + seq!['>']),
        bracketable(v),
    ensures
        iri_at(cs, pos, None) == Ok::<(Seq<char>, int), Seq<char>>((v, pos + v.len() + 2)),
{
    assert(seq!['<'] + v + seq!['>'] =~= seq!['<'] + (v + seq!['>']));
    lemma_parts(cs, pos, seq!['<'], v + seq!['>']);
    lemma_iri_chars(cs, pos + 1, v, Seq::empty());
    assert(Seq::<char>::empty() + v =~= v);
}

proof fn lemma_string_chars(cs: Seq<char>, pos: int, v: Seq<char>, acc: Seq<char>)
    requires
        stands(cs, pos, escaped(v) + seq!['"']),
    ensures
        string_chars(cs, pos, acc, '"', false) == Ok::<(Seq<char>, int), Seq<char>>(
            (acc + v, pos + escaped(v).len() + 1),
        ),
    decreases v.len(),
{
    let all = escaped(v) + seq!['"'];
    if v.len() == 0 {
        assert(all[0] == '"');
        assert(acc + v =~= acc);
    } else {
        let c = v[0];
        let w = v.drop_first();
        let e = escaped_char(c);
        let rest = escaped(w) + seq!['"'];
        lemma_escaped_front(v);
        assert(all =~= e + rest);
        lemma_parts(cs, pos, e, rest);
        lemma_string_chars(cs, pos + e.len(), w, acc.push(c));
        assert(acc.push(c) + w =~= acc + v);
        assert(cs[pos] == e[0]);
        if e.len() == 2 {
            assert(cs[pos + 1] == e[1]);
            assert(short_escape(e[1]) == Some(c));
        }
    }
}

/// A quoted string is read as its value, where no quote follows it.
proof fn lemma_string(cs: Seq<char>, pos: int, v: Seq<char>)
    requires
        stands(cs, pos, seq!['"'] + escaped(v) + seq!['"']),
        !at(cs, pos + escaped(v).len() + 2, '"'),
    ensures
        string_at(cs, pos) == Ok::<(Seq<char>, int), Seq<char>>((v, pos + escaped(v).len() + 2)),
{
    let body = escaped(v) + seq!['"'];
    assert(seq!['"'] + escaped(v) + seq!['"'] =~= seq!['"'] + body);
    lemma_parts(cs, pos, seq!['"'], body);
    lemma_string_chars(cs, pos + 1, v, Seq::empty());
    assert(Seq::<char>::empty() + v =~= v);
    assert(seq!['"'][0] == '"');
    if v.len() > 0 {
        lemma_escaped_front(v);
        assert(body[0] == escaped_char(v[0])[0]);
    } else {
        assert(escaped(v) =~= Seq::<char>::empty());
    }
}

proof fn lemma_lang_to(cs: Seq<char>, pos: int, l: Seq<char>)
    requires
        stands(cs, pos, l + seq![' ']),
        forall|i: int| 0 <= i < l.len() ==> lang_char(#[trigger] l[i]),
    ensures
        lang_to(cs, pos) == pos + l.len(),
    decreases l.len(),
{
    let all = l + seq![' '];
    if l.len() > 0 {
        let w = l.drop_first();
        let rest = w + seq![' '];
        assert(all[0] == l[0]);
        assert forall|k: int| #![trigger rest[k]] 0 <= k < rest.len() implies cs[pos + 1 + k] == rest[k] by {
            assert(all[k + 1] == rest[k]);
        }
        assert forall|i: int| 0 <= i < w.len() implies lang_char(#[trigger] w[i]) by {
            assert(w[i] == l[i + 1]);
        }
        lemma_lang_to(cs, pos + 1, w);
    } else {
        assert(all[0] == ' ');
    }
}

proof fn lemma_name_to(cs: Seq<char>, pos: int, v: Seq<char>)
    requires
        stands(cs, pos, v + seq![' ']),
        forall|i: int| 0 <= i < v.len() ==> name_char(#[trigger] v[i]),
    ensures
        name_to(cs, pos) == pos + v.len(),
    decreases v.len(),
{
    let all = v + seq![' '];
    if v.len() > 0 {
        let w = v.drop_first();
        let rest = w + seq![' '];
        assert(all[0] == v[0]);
        assert forall|k: int| #![trigger rest[k]] 0 <= k < rest.len() implies cs[pos + 1 + k] == rest[k] by {
            assert(all[k + 1] == rest[k]);
        }
        assert forall|i: int| 0 <= i < w.len() implies name_char(#[trigger] w[i]) by {
            assert(w[i] == v[i + 1]);
        }
        lemma_name_to(cs, pos + 1, w);
    } else {
        assert(all[0] == ' ');
    }
}

/// Where a term stands, the term is read.
pub open spec fn reads(cs: Seq<char>, pos: int, t: TermText, d: Doc) -> bool {
    term_at(cs, pos, d.names) == Ok::<(Option<TermText>, int), Seq<char>>(
        (Some(t), pos + term_text(t.value, t.typ).len()),
    )
}

proof fn lemma_reads_blank(cs: Seq<char>, pos: int, t: TermText, d: Doc)
    requires
        t.typ is BlankNode,
        turtle_writable(t),
        stands(cs, pos, term_text(t.value, t.typ) + seq![' ']),
    ensures
        reads(cs, pos, t, d),
{
    let v = t.value;
    let mark = seq!['_', ':'];
    assert(mark + v + seq![' '] =~= mark + (v + seq![' ']));
    lemma_parts(cs, pos, mark, v + seq![' ']);
    assert(mark[0] == '_' && mark[1] == ':');
    assert(cs[pos] == '_' && cs[pos + 1] == ':');
    lemma_no_space(cs, pos);
    lemma_name_to(cs, pos + 2, v);
    let end = pos + 2 + v.len();
    let all = v + seq![' '];
    assert(all[v.len() - 1] == v.last());
    assert(cs[pos + 2 + (v.len() - 1)] == v.last());
    assert(cs[end - 1] == v.last());
    assert(name_end(cs, pos + 2) == end);
    assert forall|k: int| 0 <= k < v.len() implies cs.subrange(pos + 2, end)[k] == v[k] by {
        assert(all[k] == v[k]);
    }
    assert(cs.subrange(pos + 2, end) =~= v);
}

proof fn lemma_reads_literal(cs: Seq<char>, pos: int, t: TermText, d: Doc)
    requires
        t.typ is Literal,
        turtle_writable(t),
        d.names.base is None,
        stands(cs, pos, term_text(t.value, t.typ) + seq![' ']),
    ensures
        reads(cs, pos, t, d),
{
    let v = t.value;
    let quoted = seq!['"'] + escaped(v) + seq!['"'];
    let text = term_text(v, t.typ);
    let p = pos + quoted.len();
    let tail = text.skip(quoted.len() as int) + seq![' '];
    assert(text + seq![' '] =~= quoted + tail);
    lemma_parts(cs, pos, quoted, tail);
    assert(quoted[0] == '"');
    assert(cs[pos] == '"');
    assert(tail.len() > 0 && tail[0] != '"');
    assert(cs[p] == tail[0]);
    lemma_no_space(cs, pos);
    lemma_string(cs, pos, v);
    if let TermKind::Literal { datatype, lang } = t.typ {
        match lang {
            Some(l) => {
                assert(tail =~= seq!['@'] + (l + seq![' ']));
                lemma_parts(cs, p, seq!['@'], l + seq![' ']);
                lemma_lang_to(cs, p + 1, l);
                let all = l + seq![' '];
                assert forall|k: int| 0 <= k < l.len() implies cs.subrange(p + 1, p + 1 + l.len())[k]
                    == l[k] by {
                    assert(all[k] == l[k]);
                }
                assert(cs.subrange(p + 1, p + 1 + l.len()) =~= l);
            },
            None => match datatype {
                Some(dt) => {
                    let mark = seq!['^', '^'];
                    let iri = seq!['<'] + dt + seq!['>'];
                    assert(tail =~= mark + (iri + seq![' ']));
                    lemma_parts(cs, p, mark, iri + seq![' ']);
                    lemma_parts(cs, p + 2, iri, seq![' ']);
                    assert(mark[0] == '^' && mark[1] == '^');
                    assert(cs[p + 1] == mark[1]);
                    assert(iri[0] == '<');
                    assert(cs[p + 2] == '<');
                    lemma_no_space(cs, p + 2);
                    lemma_iri(cs, p + 2, dt);
                },
                None => {
                    assert(tail =~= seq![' ']);
                },
            },
        }
    }
}

/// A written term that a blank follows is read.
pub proof fn lemma_reads(cs: Seq<char>, pos: int, t: TermText, d: Doc)
    requires
        turtle_writable(t),
        d.names.base is None,
        stands(cs, pos, term_text(t.value, t.typ) + seq![' ']),
    ensures
        reads(cs, pos, t, d),
        cs[pos] == '<' || cs[pos] == '_' || cs[pos] == '"',
{
    let text = term_text(t.value, t.typ);
    lemma_parts(cs, pos, text, seq![' ']);
    assert(text[0] == '<' || text[0] == '_' || text[0] == '"');
    assert(cs[pos] == text[0]);
    match t.typ {
        TermKind::Iri => {
            assert(cs[pos] == '<');
            lemma_no_space(cs, pos);
            lemma_iri(cs, pos, t.value);
        },
        TermKind::BlankNode => {
            lemma_reads_blank(cs, pos, t, d);
        },
        TermKind::Literal { .. } => {
            lemma_reads_literal(cs, pos, t, d);
        },
    }
}

// --- Lines -----------------------------------------------------------------------------

/// The objects of a line are its one object.
proof fn lemma_line_object(cs: Seq<char>, s: TermText, p: TermText, o: TermText, q: int, d: Doc)
    requires
        turtle_writable(o),
        d.names.base is None,
        stands(cs, q, seq![' '] + term_text(o.value, o.typ) + seq![' ', '.']),
    ensures
        objects_at(cs, s, p, q, d, 0) == Ok::<((), int, Doc), Seq<char>>(
            ((), q + 2 + term_text(o.value, o.typ).len(), with_triple(d, s, p, o)),
        ),
        at(cs, q + 2 + term_text(o.value, o.typ).len(), '.'),
{
    let c = term_text(o.value, o.typ);
    assert(seq![' '] + c + seq![' ', '.'] =~= seq![' '] + ((c + seq![' ']) + seq!['.']));
    lemma_parts(cs, q, seq![' '], (c + seq![' ']) + seq!['.']);
    lemma_parts(cs, q + 1, c + seq![' '], seq!['.']);
    lemma_parts(cs, q + 1, c, seq![' ']);
    lemma_reads(cs, q + 1, o, d);
    assert(cs[q] == seq![' '][0]);
    lemma_one_space(cs, q);
    lemma_no_space(cs, q + 1);
    let e = q + 1 + c.len();
    assert(cs[e] == seq![' '][0]);
    assert(cs[e + 1] == seq!['.'][0]);
    lemma_one_space(cs, e);
    assert(object_at(cs, q, d, 0) == Ok::<(TermText, int, Doc), Seq<char>>((o, e, d)));
}

/// Where the terms of a line stand.
proof fn lemma_line_parts(cs: Seq<char>, pos: int, t: TripleText)
    requires
        stands(cs, pos, triple_line(t)),
    ensures
        ({
            let a = term_text(t.subject.value, t.subject.typ);
            let b = term_text(t.predicate.value, t.predicate.typ);
            let c = term_text(t.object.value, t.object.typ);
            &&& stands(cs, pos, a + seq![' '])
            &&& at(cs, pos + a.len(), ' ')
            &&& stands(cs, pos + a.len() + 1, b + seq![' '])
            &&& stands(cs, pos + a.len() + 1 + b.len(), seq![' '] + c + seq![' ', '.'])
            &&& triple_line(t).len() == a.len() + b.len() + c.len() + 4
        }),
{
    let a = term_text(t.subject.value, t.subject.typ);
    let b = term_text(t.predicate.value, t.predicate.typ);
    let c = term_text(t.object.value, t.object.typ);
    let last = seq![' '] + c + seq![' ', '.'];
    assert(triple_line(t) =~= (a + seq![' ']) + (b + last));
    lemma_parts(cs, pos, a + seq![' '], b + last);
    lemma_parts(cs, pos, a, seq![' ']);
    assert(cs[pos + a.len()] == seq![' '][0]);
    let q = pos + a.len() + 1;
    lemma_parts(cs, q, b, last);
    let tail = c + seq![' ', '.'];
    assert(b + last =~= (b + seq![' ']) + tail);
    lemma_parts(cs, q, b + seq![' '], tail);
}

/// What a line says of its subject.
proof fn lemma_line_predicate(cs: Seq<char>, q: int, t: TripleText, d: Doc)
    requires
        triple_writable(t),
        d.names.base is None,
        at(cs, q, ' '),
        stands(cs, q + 1, term_text(t.predicate.value, t.predicate.typ) + seq![' ']),
        stands(
            cs,
            q + 1 + term_text(t.predicate.value, t.predicate.typ).len(),
            seq![' '] + term_text(t.object.value, t.object.typ) + seq![' ', '.'],
        ),
    ensures
        ({
            let u = q + 3 + term_text(t.predicate.value, t.predicate.typ).len() + term_text(
                t.object.value,
                t.object.typ,
            ).len();
            &&& at(cs, u, '.')
            &&& predicates_at(cs, t.subject, q, d, 0) == Ok::<((), int, Doc), Seq<char>>(
                ((), u, with_triple(d, t.subject, t.predicate, t.object)),
            )
        }),
{
    let b = term_text(t.predicate.value, t.predicate.typ);
    let c = term_text(t.object.value, t.object.typ);
    lemma_reads(cs, q + 1, t.predicate, d);
    lemma_one_space(cs, q);
    lemma_no_space(cs, q + 1);
    let r = q + 1 + b.len();
    lemma_line_object(cs, t.subject, t.predicate, t.object, r, d);
    let u = r + 2 + c.len();
    lemma_no_space(cs, u);
}

/// Where a term in N-Triples syntax begins, no directive does.
proof fn lemma_no_directive(cs: Seq<char>, pos: int, d: Doc)
    requires
        0 <= pos < cs.len(),
        cs[pos] == '<' || cs[pos] == '_' || cs[pos] == '"',
    ensures
        statement_at(cs, pos, d) == triples_at(cs, pos, d),
{
    reveal_strlit("@prefix");
    reveal_strlit("@base");
    reveal_strlit("PREFIX");
    reveal_strlit("BASE");
    assert(!part_at(cs, "@prefix"@, pos)) by {
        if part_at(cs, "@prefix"@, pos) {
            assert(cs.subrange(pos, pos + "@prefix"@.len())[0] == '@');
        }
    }
    assert(!part_at(cs, "@base"@, pos)) by {
        if part_at(cs, "@base"@, pos) {
            assert(cs.subrange(pos, pos + "@base"@.len())[0] == '@');
        }
    }
    assert("PREFIX"@[0] == 'P');
    assert("BASE"@[0] == 'B');
    assert(!keyword_at(cs, pos, "PREFIX"@)) by {
        if keyword_at(cs, pos, "PREFIX"@) {
            assert(same_letter(cs[pos + 0], "PREFIX"@[0]));
        }
    }
    assert(!keyword_at(cs, pos, "BASE"@)) by {
        if keyword_at(cs, pos, "BASE"@) {
            assert(same_letter(cs[pos + 0], "BASE"@[0]));
        }
    }
}

/// A line is one statement.
proof fn lemma_line(cs: Seq<char>, pos: int, t: TripleText, d: Doc)
    requires
        triple_writable(t),
        d.names.base is None,
        stands(cs, pos, triple_line(t)),
    ensures
        line_reads(cs, pos, t, d),
        0 <= pos < cs.len(),
        space_to(cs, pos) == pos,
        !white(cs[pos]),
        cs[pos] != '#',
{
    let a = term_text(t.subject.value, t.subject.typ);
    lemma_line_parts(cs, pos, t);
    lemma_reads(cs, pos, t.subject, d);
    lemma_no_space(cs, pos);
    lemma_no_directive(cs, pos, d);
    lemma_line_predicate(cs, pos + a.len(), t, d);
    lemma_no_space(cs, pos + triple_line(t).len() - 1);
    reveal(line_reads);
}

/// The statement at a position is this line.
#[verifier::opaque]
spec fn line_reads(cs: Seq<char>, pos: int, t: TripleText, d: Doc) -> bool {
    statement_at(cs, pos, d) == Ok::<((), int, Doc), Seq<char>>(
        ((), pos + triple_line(t).len(), with_triple(d, t.subject, t.predicate, t.object)),
    )
}

/// The document from `from` on leads to these triples.
#[verifier::opaque]
spec fn gives(cs: Seq<char>, from: int, d: Doc, out: Seq<TripleText>) -> bool {
    document_from(cs, from, d) == Ok::<Seq<TripleText>, Seq<char>>(out)
}

/// At the end the document leads to what was read.
proof fn lemma_at_end(cs: Seq<char>, from: int, d: Doc)
    requires
        space_to(cs, from) >= cs.len(),
    ensures
        gives(cs, from, d, d.out),
{
    reveal(gives);
}

/// The document goes on after a line.
proof fn lemma_after_line(cs: Seq<char>, from: int, pos: int, t: TripleText, d: Doc, out: Seq<TripleText>)
    requires
        from <= pos < cs.len(),
        space_to(cs, from) == pos,
        line_reads(cs, pos, t, d),
        triple_line(t).len() > 0,
        pos + triple_line(t).len() <= cs.len(),
        gives(
            cs,
            pos + triple_line(t).len(),
            with_triple(d, t.subject, t.predicate, t.object),
            out,
        ),
    ensures
        gives(cs, from, d, out),
{
    reveal(gives);
    reveal(line_reads);
}

/// What the document from `from` on adds, where the lines begin at `pos`.
proof fn lemma_lines(cs: Seq<char>, from: int, pos: int, ts: Seq<TripleText>, d: Doc)
    requires
        0 <= from <= pos,
        from == pos || (from + 1 == pos && cs[from] == '\n'),
        pos + lines_of(ts).len() == cs.len(),
        stands(cs, pos, lines_of(ts)),
        d.names.base is None,
        forall|i: int| 0 <= i < ts.len() ==> triple_writable(#[trigger] ts[i]),
    ensures
        gives(cs, from, d, d.out + ts),
    decreases ts.len(),
{
    if ts.len() == 0 {
        assert(d.out + ts =~= d.out);
        if from < pos {
            lemma_one_space(cs, from);
        }
        lemma_at_end(cs, from, d);
    } else {
        let t = ts[0];
        let more = ts.skip(1);
        let line = triple_line(t);
        let rest = lines_of(more);
        assert(lines_of(ts) =~= line + (seq!['\n'] + rest));
        lemma_parts(cs, pos, line, seq!['\n'] + rest);
        let q = pos + line.len();
        lemma_parts(cs, q, seq!['\n'], rest);
        assert(cs[q] == seq!['\n'][0]);
        lemma_line(cs, pos, t, d);
        if from < pos {
            lemma_one_space(cs, from);
        }
        let d1 = with_triple(d, t.subject, t.predicate, t.object);
        assert forall|i: int| 0 <= i < more.len() implies triple_writable(#[trigger] more[i]) by {
            assert(more[i] == ts[i + 1]);
        }
        lemma_lines(cs, q, q + 1, more, d1);
        assert(d1.out + more =~= d.out + ts);
        lemma_after_line(cs, from, pos, t, d, d.out + ts);
    }
}

proof fn lemma_whole(cs: Seq<char>, out: Seq<TripleText>)
    requires
        cs.len() > 0 ==> cs[0] != '\u{feff}',
        gives(cs, 0, empty_doc(), out),
    ensures
        turtle_triples(cs) == Ok::<Seq<TripleText>, Seq<char>>(out),
{
    reveal(gives);
}

/// Turtle reads N-Triples: a document of written lines is read as the triples of
/// the lines, in their order.
pub proof fn law_turtle_reads_lines(ts: Seq<TripleText>)
    requires
        forall|i: int| 0 <= i < ts.len() ==> triple_writable(#[trigger] ts[i]),
    ensures
        turtle_triples(lines_of(ts)) == Ok::<Seq<TripleText>, Seq<char>>(ts),
{
    let cs = lines_of(ts);
    if ts.len() > 0 {
        assert(cs[0] == term_text(ts[0].subject.value, ts[0].subject.typ)[0]);
    }
    lemma_lines(cs, 0, 0, ts, empty_doc());
    assert(Seq::<TripleText>::empty() + ts =~= ts);
    lemma_whole(cs, ts);
}

/// Turtle reads an N-Triples line as the one triple that was written, which is what
/// the line is read as where N-Triples can carry it.
pub proof fn law_turtle_reads_line(t: TripleText)
    requires
        triple_writable(t),
    ensures
        turtle_triples(triple_line(t)) == Ok::<Seq<TripleText>, Seq<char>>(seq![t]),
        writable(t.subject) && writable(t.predicate) && writable(t.object) ==> line_triple(
            triple_line(t),
        ) == Some(t),
{
    lemma_one_line(t);
    assert(writable(t.subject) && writable(t.predicate) && writable(t.object) ==> line_triple(
        triple_line(t),
    ) == Some(t)) by {
        if writable(t.subject) && writable(t.predicate) && writable(t.object) {
            law_line_round_trip(t);
        }
    }
}

proof fn lemma_one_line(t: TripleText)
    requires
        triple_writable(t),
    ensures
        turtle_triples(triple_line(t)) == Ok::<Seq<TripleText>, Seq<char>>(seq![t]),
{
    let cs = triple_line(t);
    let d = empty_doc();
    assert(cs[0] == term_text(t.subject.value, t.subject.typ)[0]);
    lemma_line(cs, 0, t, d);
    let d1 = with_triple(d, t.subject, t.predicate, t.object);
    lemma_at_end(cs, cs.len() as int, d1);
    lemma_after_line(cs, 0, 0, t, d, d1.out);
    assert(d1.out =~= seq![t]);
    lemma_whole(cs, seq![t]);
}

} // verus!
