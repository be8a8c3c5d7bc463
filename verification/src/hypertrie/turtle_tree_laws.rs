//! Turtle reads what its abbreviations stand for: prefixed names, numbers, lists of
//! predicates and objects, nested blank nodes and collections.

use crate::hypertrie::dictionary::typed;
use crate::hypertrie::export::{term_text, TermText, TripleText};
use crate::hypertrie::turtle::{
    cells, collection_at, colon_from, document_from, empty_doc, fresh_blank, items_at, keyword_a, keyword_at, legal_prefix,
    node_at,
    object_at, objects_at, predicates_at, prefix_decl, rdf, same_letter, statement_at, triples_at, turtle_triples,
    with_triple, Doc, MAX_NESTING,
};
use crate::hypertrie::turtle_laws::{
    bracketable, lemma_iri, lemma_no_space, lemma_one_space, lemma_parts, lemma_reads, reads, stands, turtle_writable,
};
use crate::hypertrie::turtle_terms::{
    ascii_letter, at, digit, digit_at, digits_end, exponent_digits, iri_term, local_char,
    local_from, mantissa, name_char, name_end, name_to, namespace, number_at, prefixed_at,
    space_to, term_at, Names, Prefixes,
};
use crate::text::{decimal, part_at, white};
use vstd::prelude::*;

verus! {

// --- Numbers ---------------------------------------------------------------------------

/// A number as it is written: a sign, digits, a fraction and an exponent, of which only the
/// digits must be there.
pub struct NumberText {
    pub sign: Seq<char>,
    pub whole: Seq<char>,
    pub fraction: Option<Seq<char>>,
    pub exponent: Option<(char, Seq<char>, Seq<char>)>,
}

/// Decimal digits, at least one.
pub open spec fn are_digits(s: Seq<char>) -> bool {
    s.len() > 0 && forall|i: int| 0 <= i < s.len() ==> '0' <= #[trigger] s[i] <= '9'
}

/// Nothing or a sign.
pub open spec fn is_sign(s: Seq<char>) -> bool {
    s.len() == 0 || (s.len() == 1 && (s[0] == '+' || s[0] == '-'))
}

pub open spec fn number_ok(n: NumberText) -> bool {
    &&& is_sign(n.sign)
    &&& are_digits(n.whole)
    &&& n.fraction is Some ==> are_digits(n.fraction->0)
    &&& n.exponent is Some ==> {
        let (letter, sign, digits) = n.exponent->0;
        (letter == 'e' || letter == 'E') && is_sign(sign) && are_digits(digits)
    }
}

/// The fraction of a number, with its dot.
pub open spec fn fraction_text(n: NumberText) -> Seq<char> {
    match n.fraction {
        Some(f) => seq!['.'] + f,
        None => Seq::empty(),
    }
}

/// The exponent of a number, with its letter.
pub open spec fn exponent_text(n: NumberText) -> Seq<char> {
    match n.exponent {
        Some((letter, sign, digits)) => seq![letter] + (sign + digits),
        None => Seq::empty(),
    }
}

pub open spec fn number_text(n: NumberText) -> Seq<char> {
    n.sign + (n.whole + (fraction_text(n) + exponent_text(n)))
}

/// The datatype of a number: a double has an exponent, a decimal a fraction.
pub open spec fn number_type(n: NumberText) -> Seq<char> {
    if n.exponent is Some {
        "http://www.w3.org/2001/XMLSchema#double"@
    } else if n.fraction is Some {
        "http://www.w3.org/2001/XMLSchema#decimal"@
    } else {
        "http://www.w3.org/2001/XMLSchema#integer"@
    }
}

proof fn lemma_digits_end(cs: Seq<char>, pos: int, ds: Seq<char>)
    requires
        stands(cs, pos, ds),
        forall|i: int| 0 <= i < ds.len() ==> '0' <= #[trigger] ds[i] <= '9',
        !digit_at(cs, pos + ds.len()),
    ensures
        digits_end(cs, pos) == pos + ds.len(),
    decreases ds.len(),
{
    if ds.len() > 0 {
        assert(cs[pos + 0] == ds[0]);
        let rest = ds.skip(1);
        assert forall|k: int| #![trigger rest[k]] 0 <= k < rest.len() implies cs[pos + 1 + k] == rest[k] by {
            assert(cs[pos + (k + 1)] == ds[k + 1]);
        }
        lemma_digits_end(cs, pos + 1, rest);
    }
}

proof fn lemma_mantissa(cs: Seq<char>, pos: int, n: NumberText, tail: Seq<char>)
    requires
        number_ok(n),
        stands(cs, pos, n.whole + (fraction_text(n) + tail)),
        tail.len() > 0,
        tail[0] == ' ' || tail[0] == 'e' || tail[0] == 'E',
    ensures
        mantissa(cs, pos) == Some((pos + n.whole.len() + fraction_text(n).len(), n.fraction is Some)),
        stands(cs, pos + n.whole.len() + fraction_text(n).len(), tail),
{
    let f = fraction_text(n);
    lemma_parts(cs, pos, n.whole, f + tail);
    let end = pos + n.whole.len();
    lemma_parts(cs, end, f, tail);
    assert(cs[end + f.len() + 0] == tail[0]);
    assert((f + tail)[0] == if f.len() > 0 {
        f[0]
    } else {
        tail[0]
    });
    assert(cs[end + 0] == (f + tail)[0]);
    lemma_digits_end(cs, pos, n.whole);
    if let Some(ds) = n.fraction {
        lemma_parts(cs, end, seq!['.'], ds);
        assert(cs[end + 1 + 0] == ds[0]);
        lemma_digits_end(cs, end + 1, ds);
    }
}

/// A written number that a blank follows is read as the literal of its text.
proof fn lemma_number(cs: Seq<char>, pos: int, n: NumberText)
    requires
        number_ok(n),
        stands(cs, pos, number_text(n) + seq![' ']),
    ensures
        number_at(cs, pos) == Ok::<(TermText, int), Seq<char>>(
            (TermText { value: number_text(n), typ: typed(number_type(n)) }, pos + number_text(n).len()),
        ),
        digit(cs[pos]) || cs[pos] == '+' || cs[pos] == '-',
{
    let text = number_text(n);
    let f = fraction_text(n);
    let e = exponent_text(n);
    let tail = e + seq![' '];
    assert(text + seq![' '] =~= n.sign + (n.whole + (f + tail)));
    lemma_parts(cs, pos, n.sign, n.whole + (f + tail));
    let start = pos + n.sign.len();
    lemma_parts(cs, start, n.whole, f + tail);
    assert(cs[start + 0] == n.whole[0]);
    if n.sign.len() > 0 {
        assert(cs[pos + 0] == n.sign[0]);
    }
    assert(tail[0] == if e.len() > 0 {
        e[0]
    } else {
        ' '
    });
    lemma_mantissa(cs, start, n, tail);
    let end = start + n.whole.len() + f.len();
    assert(cs[end + 0] == tail[0]);
    if let Some((letter, sign, digits)) = n.exponent {
        assert(tail =~= seq![letter] + (sign + (digits + seq![' '])));
        lemma_parts(cs, end, seq![letter], sign + (digits + seq![' ']));
        lemma_parts(cs, end + 1, sign, digits + seq![' ']);
        let first = end + 1 + sign.len();
        lemma_parts(cs, first, digits, seq![' ']);
        assert(cs[first + 0] == digits[0]);
        if sign.len() > 0 {
            assert(cs[end + 1 + 0] == sign[0]);
        }
        assert(exponent_digits(cs, end) == first);
        assert(cs[first + digits.len() + 0] == seq![' '][0]);
        lemma_digits_end(cs, first, digits);
    }
    let last = pos + text.len();
    assert forall|k: int| 0 <= k < text.len() implies cs.subrange(pos, last)[k] == text[k] by {
        assert((text + seq![' '])[k] == text[k]);
    }
    assert(cs.subrange(pos, last) =~= text);
    lemma_types();
}

proof fn lemma_types()
    ensures
        "http://www.w3.org/2001/XMLSchema#"@ + "double"@ == "http://www.w3.org/2001/XMLSchema#double"@,
        "http://www.w3.org/2001/XMLSchema#"@ + "decimal"@ == "http://www.w3.org/2001/XMLSchema#decimal"@,
        "http://www.w3.org/2001/XMLSchema#"@ + "integer"@ == "http://www.w3.org/2001/XMLSchema#integer"@,
        "http://www.w3.org/2001/XMLSchema#"@ + "boolean"@ == "http://www.w3.org/2001/XMLSchema#boolean"@,
{
    reveal_strlit("http://www.w3.org/2001/XMLSchema#");
    reveal_strlit("double");
    reveal_strlit("decimal");
    reveal_strlit("integer");
    reveal_strlit("boolean");
    reveal_strlit("http://www.w3.org/2001/XMLSchema#double");
    reveal_strlit("http://www.w3.org/2001/XMLSchema#decimal");
    reveal_strlit("http://www.w3.org/2001/XMLSchema#integer");
    reveal_strlit("http://www.w3.org/2001/XMLSchema#boolean");
    assert("http://www.w3.org/2001/XMLSchema#"@ + "double"@ =~= "http://www.w3.org/2001/XMLSchema#double"@);
    assert("http://www.w3.org/2001/XMLSchema#"@ + "decimal"@ =~= "http://www.w3.org/2001/XMLSchema#decimal"@);
    assert("http://www.w3.org/2001/XMLSchema#"@ + "integer"@ =~= "http://www.w3.org/2001/XMLSchema#integer"@);
    assert("http://www.w3.org/2001/XMLSchema#"@ + "boolean"@ =~= "http://www.w3.org/2001/XMLSchema#boolean"@);
}

// --- Names -----------------------------------------------------------------------------

/// The latest declaration of the prefix gives it this namespace.
pub open spec fn declared(ps: Prefixes, name: Seq<char>, ns: Seq<char>) -> bool {
    exists|i: int| #[trigger] declared_at(ps, name, ns, i)
}

pub open spec fn declared_at(ps: Prefixes, name: Seq<char>, ns: Seq<char>, i: int) -> bool {
    &&& 0 <= i < ps.len()
    &&& ps[i] == (name, ns)
    &&& forall|j: int| i < j < ps.len() ==> (#[trigger] ps[j]).0 != name
}

proof fn lemma_namespace(ps: Prefixes, name: Seq<char>, ns: Seq<char>)
    requires
        declared(ps, name, ns),
    ensures
        namespace(ps, name) == Some(ns),
    decreases ps.len(),
{
    let i = choose|i: int| #[trigger] declared_at(ps, name, ns, i);
    if i < ps.len() - 1 {
        assert(ps[ps.len() - 1].0 != name);
        let less = ps.drop_last();
        assert forall|j: int| i < j < less.len() implies (#[trigger] less[j]).0 != name by {
            assert(ps[j].0 != name);
        }
        assert(declared_at(less, name, ns, i));
        lemma_namespace(less, name, ns);
    }
}

/// A prefix: nothing, or name characters behind a letter.
pub open spec fn prefix_ok(p: Seq<char>) -> bool {
    &&& p.len() > 0 ==> ascii_letter(p[0])
    &&& forall|i: int| 0 <= i < p.len() ==> name_char(#[trigger] p[i]) && p[i] != '.' && !white(p[i])
}

/// A local name that needs no escapes.
pub open spec fn local_ok(l: Seq<char>) -> bool {
    forall|i: int| 0 <= i < l.len() ==> local_char(#[trigger] l[i]) && l[i] != '.'
}

/// A name does not begin like a truth value.
pub open spec fn no_truth(s: Seq<char>) -> bool {
    !("true"@).is_prefix_of(s) && !("false"@).is_prefix_of(s)
}

proof fn lemma_prefix_end(cs: Seq<char>, pos: int, p: Seq<char>)
    requires
        stands(cs, pos, p + seq![':']),
        forall|i: int| 0 <= i < p.len() ==> name_char(#[trigger] p[i]) && p[i] != '.',
    ensures
        name_to(cs, pos) == pos + p.len(),
    decreases p.len(),
{
    lemma_parts(cs, pos, p, seq![':']);
    if p.len() > 0 {
        assert(cs[pos + 0] == p[0]);
        let rest = p.skip(1);
        assert(p + seq![':'] =~= seq![p[0]] + (rest + seq![':']));
        lemma_parts(cs, pos, seq![p[0]], rest + seq![':']);
        lemma_prefix_end(cs, pos + 1, rest);
    } else {
        assert(cs[pos + p.len() + 0] == seq![':'][0]);
    }
}

proof fn lemma_local(cs: Seq<char>, pos: int, l: Seq<char>, acc: Seq<char>)
    requires
        stands(cs, pos, l + seq![' ']),
        local_ok(l),
    ensures
        local_from(cs, pos, acc, pos, acc.len() as int) == Ok::<(Seq<char>, int), Seq<char>>(
            (acc + l, pos + l.len()),
        ),
    decreases l.len(),
{
    lemma_parts(cs, pos, l, seq![' ']);
    if l.len() > 0 {
        assert(cs[pos + 0] == l[0]);
        let rest = l.skip(1);
        assert(l + seq![' '] =~= seq![l[0]] + (rest + seq![' ']));
        lemma_parts(cs, pos, seq![l[0]], rest + seq![' ']);
        lemma_local(cs, pos + 1, rest, acc.push(l[0]));
        assert(acc.push(l[0]) + rest =~= acc + l);
    } else {
        assert(cs[pos + l.len() + 0] == seq![' '][0]);
        assert(acc.take(acc.len() as int) =~= acc + l);
    }
}

/// A prefixed name that a blank follows stands for the namespace with the local name.
proof fn lemma_name(cs: Seq<char>, pos: int, p: Seq<char>, l: Seq<char>, ps: Prefixes, ns: Seq<char>)
    requires
        prefix_ok(p),
        local_ok(l),
        declared(ps, p, ns),
        stands(cs, pos, p + seq![':'] + l + seq![' ']),
    ensures
        prefixed_at(cs, pos, ps) == Ok::<(Seq<char>, int), Seq<char>>((ns + l, pos + p.len() + 1 + l.len())),
        cs[pos] == ':' || ascii_letter(cs[pos]),
{
    let rest = l + seq![' '];
    assert(p + seq![':'] + l + seq![' '] =~= (p + seq![':']) + rest);
    lemma_parts(cs, pos, p + seq![':'], rest);
    lemma_parts(cs, pos, p, seq![':']);
    lemma_prefix_end(cs, pos, p);
    let colon = pos + p.len();
    assert(cs[colon + 0] == seq![':'][0]);
    if p.len() > 0 {
        assert(cs[pos + 0] == p[0]);
        assert(cs[pos + (p.len() - 1)] == p[p.len() - 1]);
    }
    assert(name_end(cs, pos) == colon);
    assert forall|k: int| 0 <= k < p.len() implies cs.subrange(pos, colon)[k] == p[k] by {
        assert(cs[pos + k] == p[k]);
    }
    assert(cs.subrange(pos, colon) =~= p);
    lemma_local(cs, colon + 1, l, Seq::empty());
    assert(Seq::<char>::empty() + l =~= l);
    lemma_namespace(ps, p, ns);
}


// --- Documents as trees ------------------------------------------------------------------

/// What can be said about, or be the object of a statement.
pub enum Written {
    /// A term in full.
    Term(TermText),
    /// A prefix and a local name.
    Name(Seq<char>, Seq<char>),
    Number(NumberText),
    Truth(bool),
    /// A blank node in brackets.
    Bracket(Seq<Said>),
    /// A collection.
    List(Seq<Written>),
}

/// A predicate.
pub enum Verb {
    /// The keyword for the type.
    A,
    Term(TermText),
    Name(Seq<char>, Seq<char>),
}

/// A predicate with its objects.
pub struct Said {
    pub verb: Verb,
    pub objects: Seq<Written>,
}

pub open spec fn name_text(p: Seq<char>, l: Seq<char>) -> Seq<char> {
    p + seq![':'] + l + seq![' ']
}

pub open spec fn truth_text(b: bool) -> Seq<char> {
    if b {
        "true"@
    } else {
        "false"@
    }
}

/// The text of a node, with a blank behind it.
pub open spec fn node_text(n: Written) -> Seq<char>
    decreases n, 0int,
{
    match n {
        Written::Term(t) => term_text(t.value, t.typ) + seq![' '],
        Written::Name(p, l) => name_text(p, l),
        Written::Number(x) => number_text(x) + seq![' '],
        Written::Truth(b) => truth_text(b) + seq![' '],
        Written::Bracket(ss) => seq!['[', ' '] + (saids_text(ss, 0) + seq![']', ' ']),
        Written::List(xs) => seq!['(', ' '] + (items_text(xs, 0) + seq![')', ' ']),
    }
}

/// The predicates from number `k` on, with semicolons between them.
pub open spec fn saids_text(ss: Seq<Said>, k: int) -> Seq<char>
    decreases ss, ss.len() - k,
{
    if k < 0 || k >= ss.len() {
        Seq::empty()
    } else {
        verb_text(ss[k].verb) + (objects_text(ss[k].objects, 0) + (if k + 1 < ss.len() {
            seq![';', ' '] + saids_text(ss, k + 1)
        } else {
            Seq::empty()
        }))
    }
}

/// The objects from number `k` on, with commas between them.
pub open spec fn objects_text(os: Seq<Written>, k: int) -> Seq<char>
    decreases os, os.len() - k,
{
    if k < 0 || k >= os.len() {
        Seq::empty()
    } else {
        node_text(os[k]) + (if k + 1 < os.len() {
            seq![',', ' '] + objects_text(os, k + 1)
        } else {
            Seq::empty()
        })
    }
}

/// The items from number `k` on.
pub open spec fn items_text(xs: Seq<Written>, k: int) -> Seq<char>
    decreases xs, xs.len() - k,
{
    if k < 0 || k >= xs.len() {
        Seq::empty()
    } else {
        node_text(xs[k]) + items_text(xs, k + 1)
    }
}

pub open spec fn verb_text(v: Verb) -> Seq<char> {
    match v {
        Verb::A => seq!['a', ' '],
        Verb::Term(t) => term_text(t.value, t.typ) + seq![' '],
        Verb::Name(p, l) => name_text(p, l),
    }
}

/// A prefixed name that can be read: its prefix is declared.
pub open spec fn name_ok(p: Seq<char>, l: Seq<char>, ps: Prefixes) -> bool {
    &&& prefix_ok(p)
    &&& local_ok(l)
    &&& no_truth(p)
    &&& exists|ns: Seq<char>| declared(ps, p, ns)
}

/// What can be read back at this depth.
pub open spec fn node_ok(n: Written, ps: Prefixes, depth: nat) -> bool
    decreases n, 0int,
{
    match n {
        Written::Term(t) => turtle_writable(t),
        Written::Name(p, l) => name_ok(p, l, ps),
        Written::Number(x) => number_ok(x),
        Written::Truth(_) => true,
        Written::Bracket(ss) => depth + 1 <= MAX_NESTING && saids_ok(ss, 0, ps, depth + 1),
        Written::List(xs) => depth + 1 <= MAX_NESTING && nodes_ok(xs, 0, ps, depth + 1),
    }
}

pub open spec fn saids_ok(ss: Seq<Said>, k: int, ps: Prefixes, depth: nat) -> bool
    decreases ss, ss.len() - k,
{
    if k < 0 || k >= ss.len() {
        true
    } else {
        &&& verb_ok(ss[k].verb, ps)
        &&& ss[k].objects.len() > 0
        &&& nodes_ok(ss[k].objects, 0, ps, depth)
        &&& saids_ok(ss, k + 1, ps, depth)
    }
}

pub open spec fn nodes_ok(xs: Seq<Written>, k: int, ps: Prefixes, depth: nat) -> bool
    decreases xs, xs.len() - k,
{
    if k < 0 || k >= xs.len() {
        true
    } else {
        node_ok(xs[k], ps, depth) && nodes_ok(xs, k + 1, ps, depth)
    }
}

pub open spec fn verb_ok(v: Verb, ps: Prefixes) -> bool {
    match v {
        Verb::A => true,
        Verb::Term(t) => turtle_writable(t),
        Verb::Name(p, l) => name_ok(p, l, ps),
    }
}

// --- What the trees say ------------------------------------------------------------------

/// An IRI.
pub open spec fn named(iri: Seq<char>) -> TermText {
    TermText { value: iri, typ: crate::hypertrie::dictionary::TermKind::Iri }
}

/// The IRI of a prefixed name: the namespace of the prefix, then the local name.
pub open spec fn full_name(p: Seq<char>, l: Seq<char>, ps: Prefixes) -> TermText {
    let ns = choose|ns: Seq<char>| declared(ps, p, ns);
    named(ns + l)
}

/// One more triple.
pub open spec fn told(d: Doc, s: TermText, p: TermText, o: TermText) -> Doc {
    Doc { names: d.names, out: d.out.push(TripleText { subject: s, predicate: p, object: o }), fresh: d.fresh }
}

/// A blank node with a label that no other has.
pub open spec fn new_node(d: Doc) -> (TermText, Doc) {
    let n = if d.fresh < u64::MAX {
        (d.fresh + 1) as u64
    } else {
        d.fresh
    };
    (
        TermText { value: "_ttl"@ + decimal(n as nat), typ: crate::hypertrie::dictionary::TermKind::BlankNode },
        Doc { names: d.names, out: d.out, fresh: n },
    )
}

pub open spec fn verb_value(v: Verb, ps: Prefixes) -> TermText {
    match v {
        Verb::A => named("http://www.w3.org/1999/02/22-rdf-syntax-ns#type"@),
        Verb::Term(t) => t,
        Verb::Name(p, l) => full_name(p, l, ps),
    }
}

/// The term that a node stands for, and the document with what the node says.
pub open spec fn node_value(n: Written, d: Doc) -> (TermText, Doc)
    decreases n, 0int,
{
    match n {
        Written::Term(t) => (t, d),
        Written::Name(p, l) => (full_name(p, l, d.names.prefixes), d),
        Written::Number(x) => (TermText { value: number_text(x), typ: typed(number_type(x)) }, d),
        Written::Truth(b) => (
            TermText { value: truth_text(b), typ: typed("http://www.w3.org/2001/XMLSchema#boolean"@) },
            d,
        ),
        Written::Bracket(ss) => {
            let (node, d1) = new_node(d);
            (node, saids_doc(ss, 0, node, d1))
        },
        Written::List(xs) => {
            let (items, d1) = items_value(xs, 0, Seq::empty(), d);
            if items.len() == 0 {
                (named("http://www.w3.org/1999/02/22-rdf-syntax-ns#nil"@), d1)
            } else {
                let (cell, d2) = new_node(d1);
                (cell, chain_doc(items, 0, cell, d2))
            }
        },
    }
}

/// The document with what is said of a subject from predicate `k` on.
pub open spec fn saids_doc(ss: Seq<Said>, k: int, subject: TermText, d: Doc) -> Doc
    decreases ss, ss.len() - k,
{
    if k < 0 || k >= ss.len() {
        d
    } else {
        saids_doc(
            ss,
            k + 1,
            subject,
            objects_doc(ss[k].objects, 0, subject, verb_value(ss[k].verb, d.names.prefixes), d),
        )
    }
}

/// The document with a triple for each object from number `k` on.
pub open spec fn objects_doc(os: Seq<Written>, k: int, s: TermText, p: TermText, d: Doc) -> Doc
    decreases os, os.len() - k,
{
    if k < 0 || k >= os.len() {
        d
    } else {
        let (o, d1) = node_value(os[k], d);
        objects_doc(os, k + 1, s, p, told(d1, s, p, o))
    }
}

/// The terms of the items from number `k` on, after `acc`.
pub open spec fn items_value(xs: Seq<Written>, k: int, acc: Seq<TermText>, d: Doc) -> (Seq<TermText>, Doc)
    decreases xs, xs.len() - k,
{
    if k < 0 || k >= xs.len() {
        (acc, d)
    } else {
        let (t, d1) = node_value(xs[k], d);
        items_value(xs, k + 1, acc.push(t), d1)
    }
}

/// The chain of a collection from item `k` on: every cell has its item and the next cell,
/// the last one nil.
pub open spec fn chain_doc(items: Seq<TermText>, k: int, cell: TermText, d: Doc) -> Doc
    decreases items.len() - k,
{
    if k < 0 || k >= items.len() {
        d
    } else {
        let first = named("http://www.w3.org/1999/02/22-rdf-syntax-ns#first"@);
        let rest = named("http://www.w3.org/1999/02/22-rdf-syntax-ns#rest"@);
        let d1 = told(d, cell, first, items[k]);
        if k + 1 == items.len() {
            told(d1, cell, rest, named("http://www.w3.org/1999/02/22-rdf-syntax-ns#nil"@))
        } else {
            let (next, d2) = new_node(d1);
            chain_doc(items, k + 1, next, told(d2, cell, rest, next))
        }
    }
}

// --- Reading -----------------------------------------------------------------------------

/// What may begin a node or a predicate.
pub open spec fn leads(c: char) -> bool {
    &&& !white(c)
    &&& (c as int) < 0x80
    &&& c != '#' && c != ',' && c != ';' && c != '.' && c != ']' && c != ')'
}

proof fn lemma_full_name(p: Seq<char>, l: Seq<char>, ps: Prefixes)
    requires
        name_ok(p, l, ps),
    ensures
        exists|ns: Seq<char>| #[trigger] declared(ps, p, ns) && full_name(p, l, ps) == iri_term(ns + l),
{
    let ns = choose|ns: Seq<char>| declared(ps, p, ns);
    assert(declared(ps, p, ns) && full_name(p, l, ps) == iri_term(ns + l));
}

proof fn lemma_name_term(cs: Seq<char>, pos: int, p: Seq<char>, l: Seq<char>, d: Doc)
    requires
        name_ok(p, l, d.names.prefixes),
        stands(cs, pos, name_text(p, l)),
    ensures
        term_at(cs, pos, d.names) == Ok::<(Option<TermText>, int), Seq<char>>(
            (Some(full_name(p, l, d.names.prefixes)), pos + name_text(p, l).len() - 1),
        ),
        leads(cs[pos]),
        cs[pos] != '[' && cs[pos] != '(',
        !keyword_a(cs, pos),
        cs[pos] != '<' && cs[pos] != '_' && cs[pos] != '"' && cs[pos] != '@',
        p.len() == 0 ==> cs[pos] == ':',
        p.len() > 0 ==> cs[pos] == p[0],
{
    let ps = d.names.prefixes;
    lemma_full_name(p, l, ps);
    let ns = choose|ns: Seq<char>| #[trigger] declared(ps, p, ns) && full_name(p, l, ps) == iri_term(ns + l);
    lemma_name(cs, pos, p, l, ps, ns);
    assert(name_text(p, l) =~= p + (seq![':'] + l + seq![' ']));
    lemma_parts(cs, pos, p, seq![':'] + l + seq![' ']);
    let colon = pos + p.len();
    assert(cs[colon + 0] == (seq![':'] + l + seq![' '])[0]);
    if p.len() > 0 {
        assert(cs[pos + 0] == p[0]);
    }
    if p.len() > 1 {
        assert(cs[pos + 1] == p[1]);
        assert(name_char(p[1]));
    }
    lemma_no_space(cs, pos);
    lemma_not_truth(cs, pos, p);
}

proof fn lemma_not_truth(cs: Seq<char>, pos: int, p: Seq<char>)
    requires
        no_truth(p),
        stands(cs, pos, p),
        at(cs, pos + p.len(), ':'),
    ensures
        !part_at(cs, "true"@, pos),
        !part_at(cs, "false"@, pos),
{
    reveal_strlit("true");
    reveal_strlit("false");
    if part_at(cs, "true"@, pos) {
        let w = cs.subrange(pos, pos + 4);
        assert(w == "true"@);
        if p.len() < 4 {
            assert(w[p.len() as int] == ':');
        } else {
            assert forall|k: int| 0 <= k < 4 implies p[k] == "true"@[k] by {
                assert(w[k] == cs[pos + k]);
                assert(cs[pos + k] == p[k]);
            }
            assert(p.take(4) =~= "true"@);
            assert(("true"@).is_prefix_of(p));
        }
    }
    if part_at(cs, "false"@, pos) {
        let w = cs.subrange(pos, pos + 5);
        assert(w == "false"@);
        if p.len() < 5 {
            assert(w[p.len() as int] == ':');
        } else {
            assert forall|k: int| 0 <= k < 5 implies p[k] == "false"@[k] by {
                assert(w[k] == cs[pos + k]);
                assert(cs[pos + k] == p[k]);
            }
            assert(p.take(5) =~= "false"@);
            assert(("false"@).is_prefix_of(p));
        }
    }
}

/// A node without parts is a term.
pub open spec fn is_leaf(n: Written) -> bool {
    !(n is Bracket) && !(n is List)
}

proof fn lemma_leaf(cs: Seq<char>, pos: int, n: Written, d: Doc, depth: nat)
    requires
        is_leaf(n),
        node_ok(n, d.names.prefixes, depth),
        d.names.base is None,
        stands(cs, pos, node_text(n)),
    ensures
        term_at(cs, pos, d.names) == Ok::<(Option<TermText>, int), Seq<char>>(
            (Some(node_value(n, d).0), pos + node_text(n).len() - 1),
        ),
        node_value(n, d).1 == d,
        leads(cs[pos]),
        cs[pos] != '[' && cs[pos] != '(',
{
    match n {
        Written::Term(t) => {
            lemma_reads(cs, pos, t, d);
        },
        Written::Name(p, l) => {
            lemma_name_term(cs, pos, p, l, d);
        },
        Written::Number(x) => {
            lemma_number(cs, pos, x);
            lemma_no_space(cs, pos);
        },
        Written::Truth(b) => {
            let w = truth_text(b);
            reveal_strlit("true");
            reveal_strlit("false");
            lemma_parts(cs, pos, w, seq![' ']);
            assert(cs[pos + 0] == w[0]);
            lemma_no_space(cs, pos);
            assert forall|k: int| 0 <= k < w.len() implies cs.subrange(pos, pos + w.len())[k] == w[k] by {
                assert(cs[pos + k] == w[k]);
            }
            assert(cs.subrange(pos, pos + w.len()) =~= w);
            if !b {
                assert(!part_at(cs, "true"@, pos)) by {
                    if part_at(cs, "true"@, pos) {
                        assert(cs.subrange(pos, pos + 4)[0] == 't');
                    }
                }
            }
            lemma_types();
        },
        _ => {},
    }
}


/// Nothing that is said changes the names of the document.
proof fn lemma_names_stay(n: Written, d: Doc)
    ensures
        node_value(n, d).1.names == d.names,
    decreases n, 0int,
{
    match n {
        Written::Bracket(ss) => {
            let (node, d1) = new_node(d);
            lemma_saids_names(ss, 0, node, d1);
        },
        Written::List(xs) => {
            lemma_items_names(xs, 0, Seq::empty(), d);
            let (items, d1) = items_value(xs, 0, Seq::empty(), d);
            if items.len() > 0 {
                let (cell, d2) = new_node(d1);
                lemma_chain_names(items, 0, cell, d2);
            }
        },
        _ => {},
    }
}

proof fn lemma_saids_names(ss: Seq<Said>, k: int, subject: TermText, d: Doc)
    ensures
        saids_doc(ss, k, subject, d).names == d.names,
    decreases ss, ss.len() - k,
{
    if 0 <= k < ss.len() {
        let d1 = objects_doc(ss[k].objects, 0, subject, verb_value(ss[k].verb, d.names.prefixes), d);
        lemma_objects_names(ss[k].objects, 0, subject, verb_value(ss[k].verb, d.names.prefixes), d);
        lemma_saids_names(ss, k + 1, subject, d1);
    }
}

proof fn lemma_objects_names(os: Seq<Written>, k: int, s: TermText, p: TermText, d: Doc)
    ensures
        objects_doc(os, k, s, p, d).names == d.names,
    decreases os, os.len() - k,
{
    if 0 <= k < os.len() {
        lemma_names_stay(os[k], d);
        let (o, d1) = node_value(os[k], d);
        lemma_objects_names(os, k + 1, s, p, told(d1, s, p, o));
    }
}

proof fn lemma_items_names(xs: Seq<Written>, k: int, acc: Seq<TermText>, d: Doc)
    ensures
        items_value(xs, k, acc, d).1.names == d.names,
    decreases xs, xs.len() - k,
{
    if 0 <= k < xs.len() {
        lemma_names_stay(xs[k], d);
        let (t, d1) = node_value(xs[k], d);
        lemma_items_names(xs, k + 1, acc.push(t), d1);
    }
}

proof fn lemma_chain_names(items: Seq<TermText>, k: int, cell: TermText, d: Doc)
    ensures
        chain_doc(items, k, cell, d).names == d.names,
        chain_doc(items, k, cell, d) == cells(d, items, k, cell),
    decreases items.len() - k,
{
    lemma_vocabulary();
    if 0 <= k < items.len() {
        let first = named("http://www.w3.org/1999/02/22-rdf-syntax-ns#first"@);
        let rest = named("http://www.w3.org/1999/02/22-rdf-syntax-ns#rest"@);
        let d1 = told(d, cell, first, items[k]);
        if k + 1 < items.len() {
            let (next, d2) = new_node(d1);
            assert(fresh_blank(d1) == new_node(d1));
            lemma_chain_names(items, k + 1, next, told(d2, cell, rest, next));
        }
    }
}

proof fn lemma_vocabulary()
    ensures
        rdf("first"@) == named("http://www.w3.org/1999/02/22-rdf-syntax-ns#first"@),
        rdf("rest"@) == named("http://www.w3.org/1999/02/22-rdf-syntax-ns#rest"@),
        rdf("nil"@) == named("http://www.w3.org/1999/02/22-rdf-syntax-ns#nil"@),
        rdf("type"@) == named("http://www.w3.org/1999/02/22-rdf-syntax-ns#type"@),
{
    reveal_strlit("http://www.w3.org/1999/02/22-rdf-syntax-ns#");
    reveal_strlit("first");
    reveal_strlit("rest");
    reveal_strlit("nil");
    reveal_strlit("type");
    reveal_strlit("http://www.w3.org/1999/02/22-rdf-syntax-ns#first");
    reveal_strlit("http://www.w3.org/1999/02/22-rdf-syntax-ns#rest");
    reveal_strlit("http://www.w3.org/1999/02/22-rdf-syntax-ns#nil");
    reveal_strlit("http://www.w3.org/1999/02/22-rdf-syntax-ns#type");
    assert("http://www.w3.org/1999/02/22-rdf-syntax-ns#"@ + "first"@
        =~= "http://www.w3.org/1999/02/22-rdf-syntax-ns#first"@);
    assert("http://www.w3.org/1999/02/22-rdf-syntax-ns#"@ + "rest"@
        =~= "http://www.w3.org/1999/02/22-rdf-syntax-ns#rest"@);
    assert("http://www.w3.org/1999/02/22-rdf-syntax-ns#"@ + "nil"@
        =~= "http://www.w3.org/1999/02/22-rdf-syntax-ns#nil"@);
    assert("http://www.w3.org/1999/02/22-rdf-syntax-ns#"@ + "type"@
        =~= "http://www.w3.org/1999/02/22-rdf-syntax-ns#type"@);
}

/// The place `pos` is where reading from `q` on begins: at once, or after a blank.
pub open spec fn begins(cs: Seq<char>, q: int, pos: int) -> bool {
    0 <= q && (q == pos || (q + 1 == pos && at(cs, q, ' ')))
}

proof fn lemma_begins(cs: Seq<char>, q: int, pos: int)
    requires
        begins(cs, q, pos),
        pos < cs.len(),
        !white(cs[pos]),
        cs[pos] != '#',
    ensures
        space_to(cs, q) == pos,
{
    if q == pos {
        lemma_no_space(cs, pos);
    } else {
        lemma_one_space(cs, q);
    }
}

proof fn lemma_node_text(n: Written)
    ensures
        node_text(n).len() > 0,
        node_text(n).last() == ' ',
{
    reveal_strlit("true");
    reveal_strlit("false");
    match n {
        Written::Term(t) => {
            assert(term_text(t.value, t.typ).len() > 0);
        },
        _ => {},
    }
}

/// A written node that something follows is read as what it stands for.
proof fn lemma_object(cs: Seq<char>, q: int, pos: int, n: Written, d: Doc, depth: nat)
    requires
        node_ok(n, d.names.prefixes, depth),
        d.names.base is None,
        begins(cs, q, pos),
        stands(cs, pos, node_text(n)),
    ensures
        object_at(cs, q, d, depth) == Ok::<(TermText, int, Doc), Seq<char>>(
            (node_value(n, d).0, pos + node_text(n).len() - 1, node_value(n, d).1),
        ),
        leads(cs[pos]),
    decreases n, 0int,
{
    lemma_node_text(n);
    match n {
        Written::Bracket(ss) => {
            lemma_bracket(cs, pos, ss, d, depth);
            lemma_begins(cs, q, pos);
        },
        Written::List(xs) => {
            lemma_list(cs, pos, xs, d, depth);
            lemma_begins(cs, q, pos);
        },
        _ => {
            lemma_leaf(cs, pos, n, d, depth);
            lemma_begins(cs, q, pos);
        },
    }
}

/// Where the parts of a node in brackets stand.
proof fn lemma_bracket_parts(cs: Seq<char>, pos: int, ss: Seq<Said>)
    requires
        stands(cs, pos, node_text(Written::Bracket(ss))),
    ensures
        ({
            let body = saids_text(ss, 0);
            let end = pos + 2 + body.len();
            &&& at(cs, pos, '[')
            &&& at(cs, pos + 1, ' ')
            &&& stands(cs, pos + 2, body)
            &&& at(cs, end, ']')
            &&& node_text(Written::Bracket(ss)).len() == body.len() + 4
        }),
{
    let open = seq!['[', ' '];
    let close = seq![']', ' '];
    let body = saids_text(ss, 0);
    lemma_parts(cs, pos, open, body + close);
    lemma_parts(cs, pos + 2, body, close);
    assert(cs[pos + 0] == open[0] && cs[pos + 1] == open[1]);
    let end = pos + 2 + body.len();
    assert(cs[end + 0] == close[0] && cs[end + 1] == close[1]);
}

proof fn lemma_bracket(cs: Seq<char>, pos: int, ss: Seq<Said>, d: Doc, depth: nat)
    requires
        node_ok(Written::Bracket(ss), d.names.prefixes, depth),
        d.names.base is None,
        stands(cs, pos, node_text(Written::Bracket(ss))),
    ensures
        node_at(cs, pos, d, depth) == Ok::<(TermText, int, Doc), Seq<char>>(
            (
                node_value(Written::Bracket(ss), d).0,
                pos + node_text(Written::Bracket(ss)).len() - 1,
                node_value(Written::Bracket(ss), d).1,
            ),
        ),
        at(cs, pos, '['),
    decreases ss, ss.len() + 1,
{
    lemma_bracket_parts(cs, pos, ss);
    let body = saids_text(ss, 0);
    let end = pos + 2 + body.len();
    let (node, d1) = new_node(d);
    assert(fresh_blank(d) == new_node(d));
    if ss.len() > 0 {
        lemma_saids(cs, node, pos + 2, pos + 2, ss, 0, d1, depth + 1);
        assert(space_to(cs, pos + 1) == pos + 2) by {
            lemma_one_space(cs, pos + 1);
        }
        assert(space_to(cs, end) == end) by {
            lemma_no_space(cs, end);
        }
        assert(!at(cs, pos + 2, ']'));
    } else {
        assert(body.len() == 0);
        assert(space_to(cs, pos + 1) == pos + 2) by {
            lemma_one_space(cs, pos + 1);
        }
        assert(saids_doc(ss, 0, node, d1) == d1);
    }
}

proof fn lemma_list(cs: Seq<char>, pos: int, xs: Seq<Written>, d: Doc, depth: nat)
    requires
        node_ok(Written::List(xs), d.names.prefixes, depth),
        d.names.base is None,
        stands(cs, pos, node_text(Written::List(xs))),
    ensures
        collection_at(cs, pos, d, depth) == Ok::<(TermText, int, Doc), Seq<char>>(
            (
                node_value(Written::List(xs), d).0,
                pos + node_text(Written::List(xs)).len() - 1,
                node_value(Written::List(xs), d).1,
            ),
        ),
        at(cs, pos, '('),
    decreases xs, xs.len() + 1,
{
    let open = seq!['(', ' '];
    let close = seq![')', ' '];
    let body = items_text(xs, 0);
    lemma_parts(cs, pos, open, body + close);
    assert(cs[pos + 0] == open[0] && cs[pos + 1] == open[1]);
    assert(body + close =~= (body + seq![')']) + seq![' ']);
    lemma_parts(cs, pos + 2, body + seq![')'], seq![' ']);
    lemma_items(cs, pos + 1, xs, 0, d, depth + 1, Seq::empty());
    let (items, d1) = items_value(xs, 0, Seq::empty(), d);
    lemma_vocabulary();
    if items.len() > 0 {
        let (cell, d2) = new_node(d1);
        assert(fresh_blank(d1) == new_node(d1));
        lemma_chain_names(items, 0, cell, d2);
    }
}

proof fn lemma_items(cs: Seq<char>, q: int, xs: Seq<Written>, k: int, d: Doc, depth: nat, acc: Seq<TermText>)
    requires
        0 <= k <= xs.len(),
        nodes_ok(xs, k, d.names.prefixes, depth),
        d.names.base is None,
        at(cs, q, ' '),
        stands(cs, q + 1, items_text(xs, k) + seq![')']),
    ensures
        items_at(cs, q, d, depth, acc) == Ok::<(Seq<TermText>, int, Doc), Seq<char>>(
            (
                items_value(xs, k, acc, d).0,
                q + 2 + items_text(xs, k).len(),
                items_value(xs, k, acc, d).1,
            ),
        ),
    decreases xs, xs.len() - k,
{
    if k == xs.len() {
        assert(items_text(xs, k) + seq![')'] =~= seq![')']);
        assert(cs[q + 1 + 0] == seq![')'][0]);
        lemma_one_space(cs, q);
    } else {
        let n = xs[k];
        let text = node_text(n);
        let more = items_text(xs, k + 1) + seq![')'];
        assert(items_text(xs, k) + seq![')'] =~= text + more);
        lemma_parts(cs, q + 1, text, more);
        lemma_node_text(n);
        lemma_object(cs, q + 1, q + 1, n, d, depth);
        lemma_begins(cs, q, q + 1);
        let e = q + 1 + text.len() - 1;
        assert(cs[q + 1 + (text.len() - 1)] == text[text.len() - 1]);
        let (t, d1) = node_value(n, d);
        lemma_names_stay(n, d);
        lemma_items(cs, e, xs, k + 1, d1, depth, acc.push(t));
    }
}

proof fn lemma_objects(
    cs: Seq<char>,
    s: TermText,
    p: TermText,
    q: int,
    pos: int,
    os: Seq<Written>,
    k: int,
    d: Doc,
    depth: nat,
)
    requires
        0 <= k < os.len(),
        nodes_ok(os, k, d.names.prefixes, depth),
        d.names.base is None,
        begins(cs, q, pos),
        stands(cs, pos, objects_text(os, k)),
        pos + objects_text(os, k).len() < cs.len(),
        !white(cs[pos + objects_text(os, k).len()]),
        cs[pos + objects_text(os, k).len()] != '#',
        cs[pos + objects_text(os, k).len()] != ',',
    ensures
        objects_at(cs, s, p, q, d, depth) == Ok::<((), int, Doc), Seq<char>>(
            ((), pos + objects_text(os, k).len(), objects_doc(os, k, s, p, d)),
        ),
    decreases os, os.len() - k,
{
    let n = os[k];
    let text = node_text(n);
    let tail = if k + 1 < os.len() {
        seq![',', ' '] + objects_text(os, k + 1)
    } else {
        Seq::empty()
    };
    lemma_parts(cs, pos, text, tail);
    lemma_node_text(n);
    lemma_object(cs, q, pos, n, d, depth);
    let e = pos + text.len() - 1;
    assert(cs[pos + (text.len() - 1)] == text[text.len() - 1]);
    let (o, d1) = node_value(n, d);
    lemma_names_stay(n, d);
    let d2 = told(d1, s, p, o);
    assert(with_triple(d1, s, p, o) == d2);
    if k + 1 < os.len() {
        lemma_parts(cs, e + 1, seq![',', ' '], objects_text(os, k + 1));
        assert(cs[e + 1 + 0] == seq![',', ' '][0] && cs[e + 1 + 1] == seq![',', ' '][1]);
        lemma_one_space(cs, e);
        lemma_objects(cs, s, p, e + 2, e + 3, os, k + 1, d2, depth);
    } else {
        assert(objects_text(os, k) =~= text);
        lemma_one_space(cs, e);
        assert(objects_doc(os, k + 1, s, p, d2) == d2);
    }
}

proof fn lemma_verb(cs: Seq<char>, pos: int, v: Verb, d: Doc)
    requires
        verb_ok(v, d.names.prefixes),
        d.names.base is None,
        stands(cs, pos, verb_text(v)),
    ensures
        verb_text(v).len() > 1,
        at(cs, pos + verb_text(v).len() - 1, ' '),
        leads(cs[pos]),
        ({
            let end = pos + verb_text(v).len() - 1;
            if keyword_a(cs, pos) {
                end == pos + 1 && verb_value(v, d.names.prefixes) == rdf("type"@)
            } else {
                term_at(cs, pos, d.names) == Ok::<(Option<TermText>, int), Seq<char>>(
                    (Some(verb_value(v, d.names.prefixes)), end),
                )
            }
        }),
{
    let text = verb_text(v);
    lemma_vocabulary();
    match v {
        Verb::A => {
            assert(cs[pos + 0] == text[0] && cs[pos + 1] == text[1]);
        },
        Verb::Term(t) => {
            assert(term_text(t.value, t.typ).len() > 0);
            assert(cs[pos + (text.len() - 1)] == text[text.len() - 1]);
            lemma_reads(cs, pos, t, d);
        },
        Verb::Name(p, l) => {
            assert(cs[pos + (text.len() - 1)] == text[text.len() - 1]);
            lemma_name_term(cs, pos, p, l, d);
        },
    }
}

proof fn lemma_saids(cs: Seq<char>, s: TermText, q: int, pos: int, ss: Seq<Said>, k: int, d: Doc, depth: nat)
    requires
        0 <= k < ss.len(),
        saids_ok(ss, k, d.names.prefixes, depth),
        d.names.base is None,
        begins(cs, q, pos),
        stands(cs, pos, saids_text(ss, k)),
        pos + saids_text(ss, k).len() < cs.len(),
        !white(cs[pos + saids_text(ss, k).len()]),
        cs[pos + saids_text(ss, k).len()] != '#',
        cs[pos + saids_text(ss, k).len()] != ',',
        cs[pos + saids_text(ss, k).len()] != ';',
    ensures
        predicates_at(cs, s, q, d, depth) == Ok::<((), int, Doc), Seq<char>>(
            ((), pos + saids_text(ss, k).len(), saids_doc(ss, k, s, d)),
        ),
        leads(cs[pos]),
    decreases ss, ss.len() - k,
{
    let verb = verb_text(ss[k].verb);
    let os = ss[k].objects;
    let objects = objects_text(os, 0);
    let tail = if k + 1 < ss.len() {
        seq![';', ' '] + saids_text(ss, k + 1)
    } else {
        Seq::empty()
    };
    lemma_parts(cs, pos, verb, objects + tail);
    lemma_verb(cs, pos, ss[k].verb, d);
    lemma_begins(cs, q, pos);
    let at_objects = pos + verb.len();
    lemma_parts(cs, at_objects, objects, tail);
    let r = at_objects + objects.len();
    let p = verb_value(ss[k].verb, d.names.prefixes);
    if k + 1 < ss.len() {
        lemma_parts(cs, r, seq![';', ' '], saids_text(ss, k + 1));
        assert(cs[r + 0] == seq![';', ' '][0] && cs[r + 1] == seq![';', ' '][1]);
    } else {
        assert(saids_text(ss, k) =~= verb + objects);
    }
    lemma_objects(cs, s, p, at_objects - 1, at_objects, os, 0, d, depth);
    lemma_objects_names(os, 0, s, p, d);
    let d1 = objects_doc(os, 0, s, p, d);
    lemma_no_space(cs, r);
    if k + 1 < ss.len() {
        lemma_saids(cs, s, r + 2, r + 2, ss, k + 1, d1, depth);
        lemma_one_space(cs, r + 1);
    } else {
        assert(saids_doc(ss, k + 1, s, d1) == d1);
    }
}


// --- Statements --------------------------------------------------------------------------

/// A statement of a document.
pub enum Statement {
    /// The declaration of a prefix.
    Prefix(Seq<char>, Seq<char>),
    /// A subject and what is said of it.
    Says(Written, Seq<Said>),
}

pub open spec fn statement_text(st: Statement) -> Seq<char> {
    match st {
        Statement::Prefix(name, iri) => "@prefix "@ + (name + (seq![':', ' '] + ((seq!['<'] + iri + seq!['>'])
            + seq![' ', '.']))),
        Statement::Says(n, ss) => node_text(n) + (saids_text(ss, 0) + seq!['.']),
    }
}

/// The statements from number `k` on, each on a line of its own.
pub open spec fn document_text(sts: Seq<Statement>, k: int) -> Seq<char>
    decreases sts.len() - k,
{
    if k < 0 || k >= sts.len() {
        Seq::empty()
    } else {
        statement_text(sts[k]) + (seq!['\n'] + document_text(sts, k + 1))
    }
}

/// The document after a statement.
pub open spec fn statement_doc(st: Statement, d: Doc) -> Doc {
    match st {
        Statement::Prefix(name, iri) => Doc {
            names: Names { base: d.names.base, prefixes: d.names.prefixes.push((name, iri)) },
            out: d.out,
            fresh: d.fresh,
        },
        Statement::Says(n, ss) => {
            let (subject, d1) = node_value(n, d);
            saids_doc(ss, 0, subject, d1)
        },
    }
}

/// The document after the statements from number `k` on.
pub open spec fn document_doc(sts: Seq<Statement>, k: int, d: Doc) -> Doc
    decreases sts.len() - k,
{
    if k < 0 || k >= sts.len() {
        d
    } else {
        document_doc(sts, k + 1, statement_doc(sts[k], d))
    }
}

/// The name begins with the keyword, in any case.
pub open spec fn begins_with(p: Seq<char>, kw: Seq<char>) -> bool {
    p.len() >= kw.len() && forall|i: int| 0 <= i < kw.len() ==> same_letter(#[trigger] p[i], kw[i])
}

/// A subject is not taken for a directive.
pub open spec fn subject_ok(n: Written) -> bool {
    n matches Written::Name(p, l) ==> !begins_with(p, "PREFIX"@) && !begins_with(p, "BASE"@)
}

pub open spec fn statement_ok(st: Statement, ps: Prefixes) -> bool {
    match st {
        Statement::Prefix(name, iri) => prefix_ok(name) && bracketable(iri),
        Statement::Says(n, ss) => node_ok(n, ps, 0) && subject_ok(n) && ss.len() > 0 && saids_ok(ss, 0, ps, 0),
    }
}

/// Every statement can be read with the prefixes that were declared before it.
pub open spec fn document_ok(sts: Seq<Statement>, k: int, d: Doc) -> bool
    decreases sts.len() - k,
{
    if k < 0 || k >= sts.len() {
        true
    } else {
        statement_ok(sts[k], d.names.prefixes) && document_ok(sts, k + 1, statement_doc(sts[k], d))
    }
}

proof fn lemma_not_word(cs: Seq<char>, pos: int, p: Seq<char>, kw: Seq<char>)
    requires
        stands(cs, pos, p),
        at(cs, pos + p.len(), ':'),
        !begins_with(p, kw),
        forall|i: int| 0 <= i < kw.len() ==> 'A' <= #[trigger] kw[i] <= 'Z',
    ensures
        !keyword_at(cs, pos, kw),
{
    if keyword_at(cs, pos, kw) {
        if p.len() < kw.len() {
            let i = p.len() as int;
            assert(same_letter(cs[pos + i], kw[i]));
        } else {
            assert forall|i: int| 0 <= i < kw.len() implies same_letter(#[trigger] p[i], kw[i]) by {
                assert(same_letter(cs[pos + i], kw[i]));
                assert(cs[pos + i] == p[i]);
            }
        }
    }
}

/// Where a node begins that is no name, no directive does.
proof fn lemma_first(cs: Seq<char>, pos: int, n: Written, d: Doc)
    requires
        node_ok(n, d.names.prefixes, 0),
        d.names.base is None,
        stands(cs, pos, node_text(n)),
    ensures
        cs[pos] != '@',
        !(n is Name) ==> cs[pos] != 'P' && cs[pos] != 'p' && cs[pos] != 'B' && cs[pos] != 'b',
{
    lemma_node_text(n);
    let text = node_text(n);
    assert(cs[pos + 0] == text[0]);
    match n {
        Written::Term(t) => {
            lemma_reads(cs, pos, t, d);
        },
        Written::Name(p, l) => {
            lemma_name_term(cs, pos, p, l, d);
        },
        Written::Number(x) => {
            lemma_number(cs, pos, x);
        },
        Written::Truth(b) => {
            reveal_strlit("true");
            reveal_strlit("false");
            assert(text[0] == truth_text(b)[0]);
        },
        Written::Bracket(ss) => {
            assert(text[0] == '[');
        },
        Written::List(xs) => {
            assert(text[0] == '(');
        },
    }
}

/// The statement at a place is about a subject.
#[verifier::opaque]
spec fn is_plain(cs: Seq<char>, pos: int, d: Doc) -> bool {
    statement_at(cs, pos, d) == triples_at(cs, pos, d)
}

/// Without a keyword there is no directive.
proof fn lemma_no_keyword(cs: Seq<char>, pos: int, d: Doc)
    requires
        0 <= pos < cs.len(),
        cs[pos] != '@',
        !keyword_at(cs, pos, "PREFIX"@),
        !keyword_at(cs, pos, "BASE"@),
    ensures
        is_plain(cs, pos, d),
{
    reveal(is_plain);
    reveal_strlit("@prefix");
    reveal_strlit("@base");
    assert(!part_at(cs, "@prefix"@, pos)) by {
        if part_at(cs, "@prefix"@, pos) {
            assert(cs.subrange(pos, pos + "@prefix"@.len())[0] == '@');
        }
    }
    assert(!part_at(cs, "@base"@, pos)) by {
        if part_at(cs, "@base"@, pos) {
            assert(cs.subrange(pos, pos + "@base"@.len())[0] == '@');
        }
    }
}

proof fn lemma_is_statement(cs: Seq<char>, pos: int, n: Written, d: Doc)
    requires
        node_ok(n, d.names.prefixes, 0),
        d.names.base is None,
        subject_ok(n),
        stands(cs, pos, node_text(n)),
    ensures
        is_plain(cs, pos, d),
{
    lemma_node_text(n);
    lemma_first(cs, pos, n, d);
    reveal_strlit("PREFIX");
    reveal_strlit("BASE");
    if let Written::Name(p, l) = n {
        assert(name_text(p, l) =~= p + (seq![':'] + l + seq![' ']));
        lemma_parts(cs, pos, p, seq![':'] + l + seq![' ']);
        assert(cs[pos + p.len() + 0] == (seq![':'] + l + seq![' '])[0]);
        lemma_not_word(cs, pos, p, "PREFIX"@);
        lemma_not_word(cs, pos, p, "BASE"@);
    } else {
        assert("PREFIX"@[0] == 'P');
        assert("BASE"@[0] == 'B');
        if keyword_at(cs, pos, "PREFIX"@) {
            assert(same_letter(cs[pos + 0], "PREFIX"@[0]));
        }
        if keyword_at(cs, pos, "BASE"@) {
            assert(same_letter(cs[pos + 0], "BASE"@[0]));
        }
    }
    lemma_no_keyword(cs, pos, d);
}

proof fn lemma_leaf_statement(cs: Seq<char>, pos: int, q: int, end: int, t: TermText, d: Doc, d2: Doc)
    requires
        space_to(cs, pos) == pos,
        !at(cs, pos, '['),
        !at(cs, pos, '('),
        term_at(cs, pos, d.names) == Ok::<(Option<TermText>, int), Seq<char>>((Some(t), q)),
        predicates_at(cs, t, q, d, 0) == Ok::<((), int, Doc), Seq<char>>(((), end, d2)),
        space_to(cs, end) == end,
        at(cs, end, '.'),
    ensures
        triples_at(cs, pos, d) == Ok::<((), int, Doc), Seq<char>>(((), end + 1, d2)),
{
}

proof fn lemma_list_statement(
    cs: Seq<char>,
    pos: int,
    q: int,
    end: int,
    t: TermText,
    d: Doc,
    d1: Doc,
    d2: Doc,
)
    requires
        space_to(cs, pos) == pos,
        at(cs, pos, '('),
        collection_at(cs, pos, d, 0) == Ok::<(TermText, int, Doc), Seq<char>>((t, q, d1)),
        predicates_at(cs, t, q, d1, 0) == Ok::<((), int, Doc), Seq<char>>(((), end, d2)),
        space_to(cs, end) == end,
        at(cs, end, '.'),
    ensures
        triples_at(cs, pos, d) == Ok::<((), int, Doc), Seq<char>>(((), end + 1, d2)),
{
}

proof fn lemma_bracket_statement(
    cs: Seq<char>,
    pos: int,
    q: int,
    end: int,
    t: TermText,
    d: Doc,
    d1: Doc,
    d2: Doc,
)
    requires
        space_to(cs, pos) == pos,
        at(cs, pos, '['),
        node_at(cs, pos, d, 0) == Ok::<(TermText, int, Doc), Seq<char>>((t, q - 1, d1)),
        space_to(cs, q - 1) == q,
        !at(cs, q, '.'),
        predicates_at(cs, t, q, d1, 0) == Ok::<((), int, Doc), Seq<char>>(((), end, d2)),
        space_to(cs, end) == end,
        at(cs, end, '.'),
    ensures
        triples_at(cs, pos, d) == Ok::<((), int, Doc), Seq<char>>(((), end + 1, d2)),
{
}

/// Where the parts of a statement stand.
proof fn lemma_says_parts(cs: Seq<char>, pos: int, n: Written, ss: Seq<Said>)
    requires
        stands(cs, pos, statement_text(Statement::Says(n, ss))),
    ensures
        ({
            let q = pos + node_text(n).len();
            let end = q + saids_text(ss, 0).len();
            &&& node_text(n).len() > 0
            &&& stands(cs, pos, node_text(n))
            &&& at(cs, q - 1, ' ')
            &&& stands(cs, q, saids_text(ss, 0))
            &&& at(cs, end, '.')
            &&& end + 1 == pos + statement_text(Statement::Says(n, ss)).len()
        }),
{
    let text = node_text(n);
    let body = saids_text(ss, 0);
    lemma_parts(cs, pos, text, body + seq!['.']);
    let q = pos + text.len();
    lemma_parts(cs, q, body, seq!['.']);
    assert(cs[q + body.len() + 0] == seq!['.'][0]);
    lemma_node_text(n);
    assert(cs[pos + (text.len() - 1)] == text[text.len() - 1]);
}

/// A statement about a subject is read.
proof fn lemma_says(cs: Seq<char>, pos: int, n: Written, ss: Seq<Said>, d: Doc)
    requires
        statement_ok(Statement::Says(n, ss), d.names.prefixes),
        d.names.base is None,
        stands(cs, pos, statement_text(Statement::Says(n, ss))),
    ensures
        triples_at(cs, pos, d) == Ok::<((), int, Doc), Seq<char>>(
            (
                (),
                pos + statement_text(Statement::Says(n, ss)).len(),
                statement_doc(Statement::Says(n, ss), d),
            ),
        ),
        leads(cs[pos]),
{
    lemma_says_parts(cs, pos, n, ss);
    let q = pos + node_text(n).len();
    let end = q + saids_text(ss, 0).len();
    let (subject, d1) = node_value(n, d);
    let d2 = saids_doc(ss, 0, subject, d1);
    lemma_names_stay(n, d);
    lemma_no_space(cs, end);
    match n {
        Written::Bracket(inner) => {
            lemma_bracket(cs, pos, inner, d, 0);
            lemma_no_space(cs, pos);
            lemma_saids(cs, subject, q, q, ss, 0, d1, 0);
            lemma_one_space(cs, q - 1);
            lemma_bracket_statement(cs, pos, q, end, subject, d, d1, d2);
        },
        Written::List(xs) => {
            lemma_list(cs, pos, xs, d, 0);
            lemma_no_space(cs, pos);
            lemma_saids(cs, subject, q - 1, q, ss, 0, d1, 0);
            lemma_list_statement(cs, pos, q - 1, end, subject, d, d1, d2);
        },
        _ => {
            lemma_leaf(cs, pos, n, d, 0);
            lemma_no_space(cs, pos);
            lemma_saids(cs, subject, q - 1, q, ss, 0, d1, 0);
            lemma_leaf_statement(cs, pos, q - 1, end, subject, d, d2);
        },
    }
}

proof fn lemma_says_statement(cs: Seq<char>, pos: int, n: Written, ss: Seq<Said>, d: Doc)
    requires
        statement_ok(Statement::Says(n, ss), d.names.prefixes),
        d.names.base is None,
        stands(cs, pos, statement_text(Statement::Says(n, ss))),
    ensures
        statement_at(cs, pos, d) == Ok::<((), int, Doc), Seq<char>>(
            (
                (),
                pos + statement_text(Statement::Says(n, ss)).len(),
                statement_doc(Statement::Says(n, ss), d),
            ),
        ),
        leads(cs[pos]),
{
    lemma_says_parts(cs, pos, n, ss);
    lemma_is_statement(cs, pos, n, d);
    lemma_says(cs, pos, n, ss, d);
    reveal(is_plain);
}

proof fn lemma_colon(cs: Seq<char>, pos: int, p: Seq<char>)
    requires
        stands(cs, pos, p + seq![':']),
        forall|i: int| 0 <= i < p.len() ==> #[trigger] p[i] != ':',
    ensures
        colon_from(cs, pos) == pos + p.len(),
    decreases p.len(),
{
    lemma_parts(cs, pos, p, seq![':']);
    if p.len() > 0 {
        assert(cs[pos + 0] == p[0]);
        let rest = p.skip(1);
        assert(p + seq![':'] =~= seq![p[0]] + (rest + seq![':']));
        lemma_parts(cs, pos, seq![p[0]], rest + seq![':']);
        lemma_colon(cs, pos + 1, rest);
    } else {
        assert(cs[pos + p.len() + 0] == seq![':'][0]);
    }
}

/// Where the parts of a declaration stand.
proof fn lemma_declaration_parts(cs: Seq<char>, pos: int, name: Seq<char>, iri: Seq<char>)
    requires
        stands(cs, pos, statement_text(Statement::Prefix(name, iri))),
    ensures
        ({
            let p = pos + 8;
            let colon = p + name.len();
            let q = colon + 2;
            let end = q + iri.len() + 2;
            &&& part_at(cs, "@prefix"@, pos)
            &&& "@prefix"@.len() == 7
            &&& at(cs, pos, '@')
            &&& at(cs, pos + 7, ' ')
            &&& stands(cs, p, name + seq![':'])
            &&& at(cs, colon, ':')
            &&& at(cs, colon + 1, ' ')
            &&& stands(cs, q, seq!['<'] + iri + seq!['>'])
            &&& at(cs, q, '<')
            &&& at(cs, end, ' ')
            &&& at(cs, end + 1, '.')
            &&& end + 2 == pos + statement_text(Statement::Prefix(name, iri)).len()
        }),
{
    reveal_strlit("@prefix ");
    reveal_strlit("@prefix");
    let word = "@prefix "@;
    let target = seq!['<'] + iri + seq!['>'];
    let dot = seq![' ', '.'];
    let gap = seq![':', ' '];
    assert(word.len() == 8);
    lemma_parts(cs, pos, word, name + (gap + (target + dot)));
    assert(cs[pos + 0] == word[0] && cs[pos + 7] == word[7]);
    assert forall|k: int| 0 <= k < 7 implies cs.subrange(pos, pos + 7)[k] == "@prefix"@[k] by {
        assert(cs[pos + k] == word[k]);
    }
    assert(cs.subrange(pos, pos + 7) =~= "@prefix"@);
    let p = pos + 8;
    assert(name + (gap + (target + dot)) =~= (name + seq![':']) + (seq![' '] + (target + dot)));
    lemma_parts(cs, p, name + seq![':'], seq![' '] + (target + dot));
    lemma_parts(cs, p, name, seq![':']);
    let colon = p + name.len();
    assert(cs[colon + 0] == seq![':'][0]);
    lemma_parts(cs, colon + 1, seq![' '], target + dot);
    assert(cs[colon + 1 + 0] == seq![' '][0]);
    let q = colon + 2;
    lemma_parts(cs, q, target, dot);
    assert(cs[q + 0] == target[0]);
    let end = q + target.len();
    assert(cs[end + 0] == dot[0] && cs[end + 1] == dot[1]);
}

proof fn lemma_legal(name: Seq<char>)
    requires
        prefix_ok(name),
    ensures
        legal_prefix(name),
        forall|i: int| 0 <= i < name.len() ==> #[trigger] name[i] != ':',
{
    assert forall|i: int| 0 <= i < name.len() implies #[trigger] name[i] != ':' by {
        assert(name_char(name[i]));
    }
}

/// What follows the keyword of a declaration is read.
proof fn lemma_prefix_decl(cs: Seq<char>, start: int, name: Seq<char>, iri: Seq<char>, d: Doc)
    requires
        prefix_ok(name),
        bracketable(iri),
        d.names.base is None,
        at(cs, start, ' '),
        stands(cs, start + 1, name + seq![':']),
        at(cs, start + 2 + name.len(), ' '),
        stands(cs, start + 3 + name.len(), seq!['<'] + iri + seq!['>']),
        at(cs, start + 3 + name.len(), '<'),
        at(cs, start + 5 + name.len() + iri.len(), ' '),
        at(cs, start + 6 + name.len() + iri.len(), '.'),
    ensures
        prefix_decl(cs, start, d, true) == Ok::<((), int, Doc), Seq<char>>(
            (
                (),
                start + 7 + name.len() + iri.len(),
                statement_doc(Statement::Prefix(name, iri), d),
            ),
        ),
{
    let p = start + 1;
    let colon = p + name.len();
    let q = colon + 2;
    let end = q + iri.len() + 2;
    lemma_parts(cs, p, name, seq![':']);
    assert(cs[colon + 0] == seq![':'][0]);
    if name.len() > 0 {
        assert(cs[p + 0] == name[0]);
    }
    lemma_legal(name);
    assert(space_to(cs, start) == p) by {
        lemma_one_space(cs, start);
    }
    lemma_colon(cs, p, name);
    assert forall|k: int| 0 <= k < name.len() implies cs.subrange(p, colon)[k] == name[k] by {
        assert(cs[p + k] == name[k]);
    }
    assert(cs.subrange(p, colon) =~= name);
    assert(space_to(cs, colon + 1) == q) by {
        lemma_one_space(cs, colon + 1);
    }
    lemma_iri(cs, q, iri);
    assert(space_to(cs, end) == end + 1) by {
        lemma_one_space(cs, end);
    }
}

/// The statement at a place is a declaration.
proof fn lemma_keyword(cs: Seq<char>, pos: int, d: Doc, end: int, d1: Doc)
    requires
        part_at(cs, "@prefix"@, pos),
        prefix_decl(cs, pos + 7, d, true) == Ok::<((), int, Doc), Seq<char>>(((), end, d1)),
    ensures
        statement_at(cs, pos, d) == Ok::<((), int, Doc), Seq<char>>(((), end, d1)),
{
}

/// The declaration of a prefix is read.
proof fn lemma_declaration(cs: Seq<char>, pos: int, name: Seq<char>, iri: Seq<char>, d: Doc)
    requires
        prefix_ok(name),
        bracketable(iri),
        d.names.base is None,
        stands(cs, pos, statement_text(Statement::Prefix(name, iri))),
    ensures
        statement_at(cs, pos, d) == Ok::<((), int, Doc), Seq<char>>(
            (
                (),
                pos + statement_text(Statement::Prefix(name, iri)).len(),
                statement_doc(Statement::Prefix(name, iri), d),
            ),
        ),
        leads(cs[pos]),
{
    lemma_declaration_parts(cs, pos, name, iri);
    let end = pos + statement_text(Statement::Prefix(name, iri)).len();
    lemma_prefix_decl(cs, pos + 7, name, iri, d);
    lemma_keyword(cs, pos, d, end, statement_doc(Statement::Prefix(name, iri), d));
}

proof fn lemma_statement(cs: Seq<char>, pos: int, st: Statement, d: Doc)
    requires
        statement_ok(st, d.names.prefixes),
        d.names.base is None,
        stands(cs, pos, statement_text(st)),
    ensures
        statement_at(cs, pos, d) == Ok::<((), int, Doc), Seq<char>>(
            ((), pos + statement_text(st).len(), statement_doc(st, d)),
        ),
        leads(cs[pos]),
        statement_doc(st, d).names.base is None,
        statement_text(st).len() > 0,
{
    match st {
        Statement::Prefix(name, iri) => {
            reveal_strlit("@prefix ");
            lemma_declaration(cs, pos, name, iri, d);
        },
        Statement::Says(n, ss) => {
            lemma_says_statement(cs, pos, n, ss, d);
            lemma_names_stay(n, d);
            let (subject, d1) = node_value(n, d);
            lemma_saids_names(ss, 0, subject, d1);
        },
    }
}

proof fn lemma_document(cs: Seq<char>, from: int, pos: int, sts: Seq<Statement>, k: int, d: Doc)
    requires
        0 <= k <= sts.len(),
        document_ok(sts, k, d),
        d.names.base is None,
        0 <= from,
        from == pos || (from + 1 == pos && at(cs, from, '\n')),
        stands(cs, pos, document_text(sts, k)),
        pos + document_text(sts, k).len() == cs.len(),
    ensures
        document_from(cs, from, d) == Ok::<Seq<TripleText>, Seq<char>>(document_doc(sts, k, d).out),
    decreases sts.len() - k,
{
    if k == sts.len() {
        if from < pos {
            lemma_one_space(cs, from);
        } else {
            assert(space_to(cs, from) == from);
        }
    } else {
        let st = sts[k];
        let text = statement_text(st);
        let more = document_text(sts, k + 1);
        lemma_parts(cs, pos, text, seq!['\n'] + more);
        let q = pos + text.len();
        lemma_parts(cs, q, seq!['\n'], more);
        assert(cs[q + 0] == seq!['\n'][0]);
        lemma_statement(cs, pos, st, d);
        if from < pos {
            lemma_one_space(cs, from);
        } else {
            lemma_no_space(cs, pos);
        }
        lemma_document(cs, q, q + 1, sts, k + 1, statement_doc(st, d));
    }
}

/// A written document is read as the triples that its statements stand for: the declared
/// namespaces replace the prefixes, lists of predicates and objects repeat their subject and
/// predicate, and nested nodes and collections are spelled out.
pub proof fn law_turtle_reads_documents(sts: Seq<Statement>)
    requires
        document_ok(sts, 0, empty_doc()),
    ensures
        turtle_triples(document_text(sts, 0)) == Ok::<Seq<TripleText>, Seq<char>>(
            document_doc(sts, 0, empty_doc()).out,
        ),
{
    let cs = document_text(sts, 0);
    assert(stands(cs, 0, cs));
    lemma_document(cs, 0, 0, sts, 0, empty_doc());
    if sts.len() > 0 {
        let text = statement_text(sts[0]);
        lemma_parts(cs, 0, text, seq!['\n'] + document_text(sts, 1));
        lemma_statement(cs, 0, sts[0], empty_doc());
    }
}

} // verus!
