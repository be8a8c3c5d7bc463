//! The Turtle format: statements, lists of predicates and objects, nested blank
//! nodes and collections.
//!
//! Everything that Turtle abbreviates is written out: a document becomes a list
//! of triples. A statement can span lines, so a document is read as a whole.

use crate::hypertrie::dictionary::TermType;
use crate::hypertrie::export::{triples_text, ParsedTerm, ParsedTriple, TermText, TripleText};
use crate::hypertrie::turtle_terms::{
    at, blank_term, error_at, fail, generated_label, iri_at, iri_term, is_name_char,
    is_name_start_char, name_char, name_start_char, prefixes_view, read_iri, read_term, skip_space,
    space_to, stands_at, term_at, text_between, NameTable, Names, Read,
};
use crate::text::{chars_of, code_of, decimal_text, is_white, owned, part_at, white};
use vstd::prelude::*;

verus! {

/// How deep brackets may be nested.
pub const MAX_NESTING: usize = 128;

/// A document in the making.
pub struct Doc {
    pub names: Names,
    pub out: Seq<TripleText>,
    /// How many blank nodes were generated.
    pub fresh: u64,
}

/// Something that was read, where it ends and the document after that, or an
/// error.
pub type Parsed<T> = Result<(T, int, Doc), Seq<char>>;

pub open spec fn with_triple(d: Doc, subject: TermText, predicate: TermText, object: TermText) -> Doc {
    Doc {
        names: d.names,
        out: d.out.push(TripleText { subject, predicate, object }),
        fresh: d.fresh,
    }
}

/// The number of the next generated blank node.
pub open spec fn next_fresh(n: u64) -> u64 {
    if n < u64::MAX {
        (n + 1) as u64
    } else {
        n
    }
}

/// A new blank node.
pub open spec fn fresh_blank(d: Doc) -> (TermText, Doc) {
    let n = next_fresh(d.fresh);
    (blank_term(generated_label(n)), Doc { names: d.names, out: d.out, fresh: n })
}

/// A term of the RDF vocabulary.
pub open spec fn rdf(name: Seq<char>) -> TermText {
    iri_term("http://www.w3.org/1999/02/22-rdf-syntax-ns#"@ + name)
}

/// The keyword `a`: it stands alone.
pub open spec fn keyword_a(cs: Seq<char>, pos: int) -> bool {
    at(cs, pos, 'a') && (pos + 1 >= cs.len() || white(cs[pos + 1]) || cs[pos + 1] == '<' || cs[pos + 1]
        == '[' || cs[pos + 1] == '"')
}

pub proof fn lemma_space(cs: Seq<char>, pos: int)
    requires
        0 <= pos <= cs.len(),
    ensures
        pos <= space_to(cs, pos) <= cs.len(),
    decreases cs.len() - pos,
{
    crate::hypertrie::turtle_terms::lemma_ends(cs, pos);
    let p = crate::hypertrie::turtle_terms::white_to(cs, pos);
    let q = crate::hypertrie::turtle_terms::line_to(cs, p);
    if at(cs, p, '#') && pos < q <= cs.len() {
        lemma_space(cs, q);
    }
}

// Reading only ever goes forward. The tests of positions in the definitions below
// say so where one definition goes on from what another has read.

/// An object: a term, a nested blank node or a collection.
pub open spec fn object_at(cs: Seq<char>, pos: int, d: Doc, depth: nat) -> Parsed<TermText>
    decreases cs.len() - pos, 2nat,
{
    if pos < 0 || pos > cs.len() {
        Err(Seq::empty())
    } else {
        proof {
            lemma_space(cs, pos);
        }
        let p = space_to(cs, pos);
        if at(cs, p, '[') {
            node_at(cs, p, d, depth)
        } else if at(cs, p, '(') {
            collection_at(cs, p, d, depth)
        } else {
            match term_at(cs, p, d.names) {
                Ok((Some(t), end)) => Ok((t, end, d)),
                Ok((None, end)) => Err(error_at(cs, end, "expected an object"@)),
                Err(e) => Err(e),
            }
        }
    }
}

/// A blank node in brackets, with what is said of it.
pub open spec fn node_at(cs: Seq<char>, pos: int, d: Doc, depth: nat) -> Parsed<TermText>
    decreases cs.len() - pos, 1nat,
{
    if pos < 0 || pos >= cs.len() {
        Err(Seq::empty())
    } else if depth + 1 > MAX_NESTING {
        Err(error_at(cs, pos + 1, "nesting too deep"@))
    } else {
        proof {
            lemma_space(cs, pos + 1);
        }
        let (node, d1) = fresh_blank(d);
        let p = space_to(cs, pos + 1);
        if at(cs, p, ']') {
            Ok((node, p + 1, d1))
        } else {
            match predicates_at(cs, node, p, d1, depth + 1) {
                Ok((_, q, d2)) => {
                    let r = space_to(cs, q);
                    if at(cs, r, ']') {
                        Ok((node, r + 1, d2))
                    } else {
                        Err(error_at(cs, r, "expected ']'"@))
                    }
                },
                Err(e) => Err(e),
            }
        }
    }
}

/// What is said of a subject: predicates, separated by semicolons, each with its
/// objects.
pub open spec fn predicates_at(cs: Seq<char>, subject: TermText, pos: int, d: Doc, depth: nat) -> Parsed<
    (),
>
    decreases cs.len() - pos, 4nat,
{
    if pos < 0 || pos > cs.len() {
        Err(Seq::empty())
    } else {
        let p = space_to(cs, pos);
        let predicate: Read<Option<TermText>> = if keyword_a(cs, p) {
            Ok((Some(rdf("type"@)), p + 1))
        } else {
            term_at(cs, p, d.names)
        };
        match predicate {
            Err(e) => Err(e),
            Ok((None, end)) => Err(error_at(cs, end, "expected a predicate"@)),
            Ok((Some(t), q)) => if pos <= q <= cs.len() {
                match objects_at(cs, subject, t, q, d, depth) {
                    Err(e) => Err(e),
                    Ok((_, r, d1)) => if pos <= r <= cs.len() {
                        proof {
                            lemma_space(cs, r);
                        }
                        let u = space_to(cs, r);
                        if !at(cs, u, ';') {
                            Ok(((), u, d1))
                        } else {
                            proof {
                                lemma_space(cs, u + 1);
                            }
                            let v = space_to(cs, u + 1);
                            if v >= cs.len() || at(cs, v, '.') || at(cs, v, ']') {
                                Ok(((), v, d1))
                            } else {
                                predicates_at(cs, subject, v, d1, depth)
                            }
                        }
                    } else {
                        Err(Seq::empty())
                    },
                }
            } else {
                Err(Seq::empty())
            },
        }
    }
}

/// The objects of a predicate, separated by commas.
pub open spec fn objects_at(
    cs: Seq<char>,
    subject: TermText,
    predicate: TermText,
    pos: int,
    d: Doc,
    depth: nat,
) -> Parsed<()>
    decreases cs.len() - pos, 3nat,
{
    if pos < 0 || pos > cs.len() {
        Err(Seq::empty())
    } else {
        match object_at(cs, pos, d, depth) {
            Err(e) => Err(e),
            Ok((t, q, d1)) => if pos <= q <= cs.len() {
                proof {
                    lemma_space(cs, q);
                }
                let d2 = with_triple(d1, subject, predicate, t);
                let r = space_to(cs, q);
                if at(cs, r, ',') {
                    objects_at(cs, subject, predicate, r + 1, d2, depth)
                } else {
                    Ok(((), r, d2))
                }
            } else {
                Err(Seq::empty())
            },
        }
    }
}

/// The items of a collection, after `acc`.
pub open spec fn items_at(cs: Seq<char>, pos: int, d: Doc, depth: nat, acc: Seq<TermText>) -> Parsed<
    Seq<TermText>,
>
    decreases cs.len() - pos, 3nat,
{
    if pos < 0 || pos > cs.len() {
        Err(Seq::empty())
    } else {
        proof {
            lemma_space(cs, pos);
        }
        let p = space_to(cs, pos);
        if at(cs, p, ')') {
            Ok((acc, p + 1, d))
        } else if p >= cs.len() {
            Err(error_at(cs, p, "unterminated collection"@))
        } else {
            match object_at(cs, p, d, depth) {
                Err(e) => Err(e),
                Ok((t, q, d1)) => if pos < q <= cs.len() {
                    items_at(cs, q, d1, depth, acc.push(t))
                } else {
                    Err(Seq::empty())
                },
            }
        }
    }
}

/// The cells of a collection from item `k` on, which is in `cell`.
pub open spec fn cells(d: Doc, items: Seq<TermText>, k: int, cell: TermText) -> Doc
    decreases items.len() - k,
{
    if k < 0 || k >= items.len() {
        d
    } else {
        let d1 = with_triple(d, cell, rdf("first"@), items[k]);
        if k + 1 == items.len() {
            with_triple(d1, cell, rdf("rest"@), rdf("nil"@))
        } else {
            let (next, d2) = fresh_blank(d1);
            cells(with_triple(d2, cell, rdf("rest"@), next), items, k + 1, next)
        }
    }
}

/// A collection: a chain of cells that ends in nil.
pub open spec fn collection_at(cs: Seq<char>, pos: int, d: Doc, depth: nat) -> Parsed<TermText>
    decreases cs.len() - pos, 1nat,
{
    if pos < 0 || pos >= cs.len() {
        Err(Seq::empty())
    } else if depth + 1 > MAX_NESTING {
        Err(error_at(cs, pos + 1, "nesting too deep"@))
    } else {
        match items_at(cs, pos + 1, d, depth + 1, Seq::empty()) {
            Err(e) => Err(e),
            Ok((items, end, d1)) => if items.len() == 0 {
                Ok((rdf("nil"@), end, d1))
            } else {
                let (head, d2) = fresh_blank(d1);
                Ok((head, end, cells(d2, items, 0, head)))
            },
        }
    }
}

// --- Statements ------------------------------------------------------------------------

/// A statement about a subject, up to its dot.
pub open spec fn triples_at(cs: Seq<char>, pos: int, d: Doc) -> Parsed<()> {
    let p = space_to(cs, pos);
    let subject: Parsed<Option<TermText>> = if at(cs, p, '[') {
        match node_at(cs, p, d, 0) {
            Ok((node, q, d1)) => Ok((Some(node), space_to(cs, q), d1)),
            Err(e) => Err(e),
        }
    } else if at(cs, p, '(') {
        match collection_at(cs, p, d, 0) {
            Ok((node, q, d1)) => Ok((Some(node), q, d1)),
            Err(e) => Err(e),
        }
    } else {
        match term_at(cs, p, d.names) {
            Ok((t, q)) => Ok((t, q, d)),
            Err(e) => Err(e),
        }
    };
    match subject {
        Err(e) => Err(e),
        Ok((None, q, _)) => Err(error_at(cs, q, "expected a subject"@)),
        Ok((Some(s), q, d1)) => if at(cs, p, '[') && at(cs, q, '.') {
            Ok(((), q + 1, d1))
        } else {
            match predicates_at(cs, s, q, d1, 0) {
                Err(e) => Err(e),
                Ok((_, r, d2)) => {
                    let u = space_to(cs, r);
                    if at(cs, u, '.') {
                        Ok(((), u + 1, d2))
                    } else {
                        Err(error_at(cs, u, "expected '.' at the end of the statement"@))
                    }
                },
            }
        },
    }
}

/// The dot after a directive, where it needs one.
pub open spec fn dot_after(cs: Seq<char>, pos: int, d: Doc, dot: bool, msg: Seq<char>) -> Parsed<()> {
    if dot {
        let p = space_to(cs, pos);
        if at(cs, p, '.') {
            Ok(((), p + 1, d))
        } else {
            Err(error_at(cs, p, msg))
        }
    } else {
        Ok(((), pos, d))
    }
}

/// The first colon from `pos` on, or the end of the document.
pub open spec fn colon_from(cs: Seq<char>, pos: int) -> int
    decreases cs.len() - pos,
{
    if 0 <= pos < cs.len() && cs[pos] != ':' {
        colon_from(cs, pos + 1)
    } else {
        pos
    }
}

/// What may be a prefix: nothing, or name characters after one that may begin a
/// name.
pub open spec fn legal_prefix(name: Seq<char>) -> bool {
    name.len() == 0 || (name_start_char(name[0]) && forall|i: int|
        0 <= i < name.len() ==> name_char(#[trigger] name[i]))
}

/// The declaration of a prefix, after its keyword.
pub open spec fn prefix_decl(cs: Seq<char>, pos: int, d: Doc, dot: bool) -> Parsed<()> {
    let p = space_to(cs, pos);
    let colon = colon_from(cs, p);
    if colon >= cs.len() {
        Err(error_at(cs, p, "prefix declaration without ':'"@))
    } else {
        let name = cs.subrange(p, colon);
        if !legal_prefix(name) {
            Err(error_at(cs, p, "illegal prefix label"@))
        } else {
            let q = space_to(cs, colon + 1);
            if !at(cs, q, '<') {
                Err(error_at(cs, q, "prefix declaration without an IRI"@))
            } else {
                match iri_at(cs, q, d.names.base) {
                    Err(e) => Err(e),
                    Ok((target, end)) => dot_after(
                        cs,
                        end,
                        Doc {
                            names: Names {
                                base: d.names.base,
                                prefixes: d.names.prefixes.push((name, target)),
                            },
                            out: d.out,
                            fresh: d.fresh,
                        },
                        dot,
                        "expected '.' after @prefix"@,
                    ),
                }
            }
        }
    }
}

/// The declaration of the base, after its keyword.
pub open spec fn base_decl(cs: Seq<char>, pos: int, d: Doc, dot: bool) -> Parsed<()> {
    let q = space_to(cs, pos);
    if !at(cs, q, '<') {
        Err(error_at(cs, q, "base declaration without an IRI"@))
    } else {
        match iri_at(cs, q, d.names.base) {
            Err(e) => Err(e),
            Ok((target, end)) => dot_after(
                cs,
                end,
                Doc {
                    names: Names { base: Some(target), prefixes: d.names.prefixes },
                    out: d.out,
                    fresh: d.fresh,
                },
                dot,
                "expected '.' after @base"@,
            ),
        }
    }
}

/// Equal but for the case of Latin letters.
pub open spec fn same_letter(c: char, upper: char) -> bool {
    c == upper || ('a' <= c && c <= 'z' && c as int - 32 == upper as int)
}

/// A keyword in capital letters at a position, in any case.
pub open spec fn keyword_at(cs: Seq<char>, pos: int, kw: Seq<char>) -> bool {
    0 <= pos && pos + kw.len() <= cs.len() && forall|i: int|
        0 <= i < kw.len() ==> same_letter(cs[pos + i], #[trigger] kw[i])
}

/// One statement or directive.
pub open spec fn statement_at(cs: Seq<char>, pos: int, d: Doc) -> Parsed<()> {
    if part_at(cs, "@prefix"@, pos) {
        prefix_decl(cs, pos + 7, d, true)
    } else if part_at(cs, "@base"@, pos) {
        base_decl(cs, pos + 5, d, true)
    } else if keyword_at(cs, pos, "PREFIX"@) {
        prefix_decl(cs, pos + 6, d, false)
    } else if keyword_at(cs, pos, "BASE"@) {
        base_decl(cs, pos + 4, d, false)
    } else {
        triples_at(cs, pos, d)
    }
}

/// The triples of the document from `pos` on, after what was read before.
pub open spec fn document_from(cs: Seq<char>, pos: int, d: Doc) -> Result<Seq<TripleText>, Seq<char>>
    decreases cs.len() - pos,
{
    let p = space_to(cs, pos);
    if p >= cs.len() {
        Ok(d.out)
    } else {
        match statement_at(cs, p, d) {
            Err(e) => Err(e),
            Ok((_, q, d1)) => if pos < q <= cs.len() {
                document_from(cs, q, d1)
            } else {
                Err(Seq::empty())
            },
        }
    }
}

/// A document without anything.
pub open spec fn empty_doc() -> Doc {
    Doc {
        names: Names { base: None, prefixes: Seq::empty() },
        out: Seq::empty(),
        fresh: 0,
    }
}

/// The triples of a Turtle document. A byte order mark in front does not count.
pub open spec fn turtle_triples(text: Seq<char>) -> Result<Seq<TripleText>, Seq<char>> {
    if text.len() > 0 && text[0] == '\u{feff}' {
        document_from(text.skip(1), 0, empty_doc())
    } else {
        document_from(text, 0, empty_doc())
    }
}

// --- Reading -----------------------------------------------------------------------------

/// What was read of a document.
#[derive(Debug)]
pub struct Parser {
    pub names: NameTable,
    pub out: Vec<ParsedTriple>,
    pub fresh: u64,
}

impl View for Parser {
    type V = Doc;

    open spec fn view(&self) -> Doc {
        Doc { names: self.names@, out: triples_text(self.out@), fresh: self.fresh }
    }
}

fn is_at(cs: &[char], pos: usize, c: char) -> (r: bool)
    ensures
        r == at(cs@, pos as int, c),
        r ==> pos < usize::MAX,
{
    pos < cs.len() && cs[pos] == c
}

fn make_rdf(name: &str) -> (t: ParsedTerm)
    ensures
        t@ == rdf(name@),
{
    let mut value: String = owned("http://www.w3.org/1999/02/22-rdf-syntax-ns#");
    value.push_str(name);
    ParsedTerm { value, typ: TermType::Iri }
}

fn is_keyword_a(cs: &[char], pos: usize) -> (r: bool)
    requires
        pos <= cs@.len(),
    ensures
        r == keyword_a(cs@, pos as int),
{
    let n: usize = cs.len();
    if pos >= n || cs[pos] != 'a' {
        return false;
    }
    if pos + 1 >= n {
        return true;
    }
    let c: char = cs[pos + 1];
    is_white(c) || c == '<' || c == '[' || c == '"'
}

impl Parser {
    fn emit(&mut self, subject: &ParsedTerm, predicate: &ParsedTerm, object: ParsedTerm)
        ensures
            final(self)@ == with_triple(old(self)@, subject@, predicate@, object@),
    {
        let t = ParsedTriple { subject: subject.clone(), predicate: predicate.clone(), object };
        self.out.push(t);
        assert(triples_text(self.out@) =~= triples_text(old(self).out@).push(
            TripleText { subject: subject@, predicate: predicate@, object: object@ },
        ));
    }

    fn fresh_blank(&mut self) -> (t: ParsedTerm)
        ensures
            (t@, final(self)@) == fresh_blank(old(self)@),
    {
        if self.fresh < u64::MAX {
            self.fresh = self.fresh + 1;
        }
        let mut label: String = owned("_ttl");
        label.push_str(decimal_text(self.fresh).as_str());
        ParsedTerm { value: label, typ: TermType::BlankNode }
    }

    /// Reads an object.
    fn object(&mut self, cs: &[char], pos: usize, depth: usize) -> (r: Result<(ParsedTerm, usize), String>)
        requires
            pos <= cs@.len(),
            depth <= MAX_NESTING,
        ensures
            match r {
                Ok((t, end)) => object_at(cs@, pos as int, old(self)@, depth as nat) == Ok::<
                    (TermText, int, Doc),
                    Seq<char>,
                >((t@, end as int, final(self)@)) && pos < end <= cs@.len(),
                Err(e) => object_at(cs@, pos as int, old(self)@, depth as nat) == Err::<
                    (TermText, int, Doc),
                    Seq<char>,
                >(e@),
            },
        decreases cs@.len() - pos, 2nat,
    {
        let p: usize = skip_space(cs, pos);
        if is_at(cs, p, '[') {
            self.blank_node_property_list(cs, p, depth)
        } else if is_at(cs, p, '(') {
            self.collection(cs, p, depth)
        } else {
            match read_term(cs, p, &self.names) {
                Ok((Some(t), end)) => Ok((t, end)),
                Ok((None, end)) => Err(fail(cs, end, "expected an object")),
                Err(e) => Err(e),
            }
        }
    }

    /// Reads a blank node in brackets.
    fn blank_node_property_list(&mut self, cs: &[char], pos: usize, depth: usize) -> (r: Result<
        (ParsedTerm, usize),
        String,
    >)
        requires
            pos < cs@.len(),
            depth <= MAX_NESTING,
        ensures
            match r {
                Ok((t, end)) => node_at(cs@, pos as int, old(self)@, depth as nat) == Ok::<
                    (TermText, int, Doc),
                    Seq<char>,
                >((t@, end as int, final(self)@)) && pos < end <= cs@.len(),
                Err(e) => node_at(cs@, pos as int, old(self)@, depth as nat) == Err::<
                    (TermText, int, Doc),
                    Seq<char>,
                >(e@),
            },
        decreases cs@.len() - pos, 1nat,
    {
        let n: usize = cs.len();
        if depth >= MAX_NESTING {
            return Err(fail(cs, pos + 1, "nesting too deep"));
        }
        let node = self.fresh_blank();
        let p: usize = skip_space(cs, pos + 1);
        if is_at(cs, p, ']') {
            return Ok((node, p + 1));
        }
        let q: usize = match self.predicate_object_list(cs, &node, p, depth + 1) {
            Ok(q) => q,
            Err(e) => {
                return Err(e);
            },
        };
        let r: usize = skip_space(cs, q);
        if is_at(cs, r, ']') {
            Ok((node, r + 1))
        } else {
            Err(fail(cs, r, "expected ']'"))
        }
    }

    /// Reads what is said of a subject.
    fn predicate_object_list(&mut self, cs: &[char], subject: &ParsedTerm, pos: usize, depth: usize) -> (r:
        Result<usize, String>)
        requires
            pos <= cs@.len(),
            depth <= MAX_NESTING,
        ensures
            match r {
                Ok(end) => predicates_at(cs@, subject@, pos as int, old(self)@, depth as nat) == Ok::<
                    ((), int, Doc),
                    Seq<char>,
                >(((), end as int, final(self)@)) && pos < end <= cs@.len(),
                Err(e) => predicates_at(cs@, subject@, pos as int, old(self)@, depth as nat) == Err::<
                    ((), int, Doc),
                    Seq<char>,
                >(e@),
            },
        decreases cs@.len() - pos, 4nat,
    {
        let n: usize = cs.len();
        let p: usize = skip_space(cs, pos);
        let (predicate, q) = if is_keyword_a(cs, p) {
            (make_rdf("type"), p + 1)
        } else {
            match read_term(cs, p, &self.names) {
                Ok((Some(t), end)) => (t, end),
                Ok((None, end)) => {
                    return Err(fail(cs, end, "expected a predicate"));
                },
                Err(e) => {
                    return Err(e);
                },
            }
        };
        let r: usize = match self.object_list(cs, subject, &predicate, q, depth) {
            Ok(r) => r,
            Err(e) => {
                return Err(e);
            },
        };
        let u: usize = skip_space(cs, r);
        if !is_at(cs, u, ';') {
            return Ok(u);
        }
        let v: usize = skip_space(cs, u + 1);
        if v >= n || is_at(cs, v, '.') || is_at(cs, v, ']') {
            return Ok(v);
        }
        self.predicate_object_list(cs, subject, v, depth)
    }

    /// Reads the objects of a predicate.
    fn object_list(
        &mut self,
        cs: &[char],
        subject: &ParsedTerm,
        predicate: &ParsedTerm,
        pos: usize,
        depth: usize,
    ) -> (r: Result<usize, String>)
        requires
            pos <= cs@.len(),
            depth <= MAX_NESTING,
        ensures
            match r {
                Ok(end) => objects_at(
                    cs@,
                    subject@,
                    predicate@,
                    pos as int,
                    old(self)@,
                    depth as nat,
                ) == Ok::<((), int, Doc), Seq<char>>(((), end as int, final(self)@)) && pos < end
                    <= cs@.len(),
                Err(e) => objects_at(
                    cs@,
                    subject@,
                    predicate@,
                    pos as int,
                    old(self)@,
                    depth as nat,
                ) == Err::<((), int, Doc), Seq<char>>(e@),
            },
        decreases cs@.len() - pos, 3nat,
    {
        let (object, q) = match self.object(cs, pos, depth) {
            Ok(x) => x,
            Err(e) => {
                return Err(e);
            },
        };
        self.emit(subject, predicate, object);
        let r: usize = skip_space(cs, q);
        if is_at(cs, r, ',') {
            self.object_list(cs, subject, predicate, r + 1, depth)
        } else {
            Ok(r)
        }
    }

    /// Reads the items of a collection.
    fn items(&mut self, cs: &[char], pos: usize, depth: usize, acc: Vec<ParsedTerm>) -> (r: Result<
        (Vec<ParsedTerm>, usize),
        String,
    >)
        requires
            pos <= cs@.len(),
            depth <= MAX_NESTING,
        ensures
            match r {
                Ok((items, end)) => items_at(
                    cs@,
                    pos as int,
                    old(self)@,
                    depth as nat,
                    terms_text(acc@),
                ) == Ok::<(Seq<TermText>, int, Doc), Seq<char>>(
                    (terms_text(items@), end as int, final(self)@),
                ) && pos < end <= cs@.len(),
                Err(e) => items_at(cs@, pos as int, old(self)@, depth as nat, terms_text(acc@))
                    == Err::<(Seq<TermText>, int, Doc), Seq<char>>(e@),
            },
        decreases cs@.len() - pos, 3nat,
    {
        let p: usize = skip_space(cs, pos);
        if is_at(cs, p, ')') {
            return Ok((acc, p + 1));
        }
        if p >= cs.len() {
            return Err(fail(cs, p, "unterminated collection"));
        }
        let (item, q) = match self.object(cs, p, depth) {
            Ok(x) => x,
            Err(e) => {
                return Err(e);
            },
        };
        let mut more = acc;
        let ghost before = more@;
        more.push(item);
        assert(terms_text(more@) =~= terms_text(before).push(item@));
        self.items(cs, q, depth, more)
    }

    /// Reads a collection.
    fn collection(&mut self, cs: &[char], pos: usize, depth: usize) -> (r: Result<
        (ParsedTerm, usize),
        String,
    >)
        requires
            pos < cs@.len(),
            depth <= MAX_NESTING,
        ensures
            match r {
                Ok((t, end)) => collection_at(cs@, pos as int, old(self)@, depth as nat) == Ok::<
                    (TermText, int, Doc),
                    Seq<char>,
                >((t@, end as int, final(self)@)) && pos < end <= cs@.len(),
                Err(e) => collection_at(cs@, pos as int, old(self)@, depth as nat) == Err::<
                    (TermText, int, Doc),
                    Seq<char>,
                >(e@),
            },
        decreases cs@.len() - pos, 1nat,
    {
        let n: usize = cs.len();
        if depth >= MAX_NESTING {
            return Err(fail(cs, pos + 1, "nesting too deep"));
        }
        let none: Vec<ParsedTerm> = Vec::new();
        assert(terms_text(none@) =~= Seq::<TermText>::empty());
        let (items, end) = match self.items(cs, pos + 1, depth + 1, none) {
            Ok(x) => x,
            Err(e) => {
                return Err(e);
            },
        };
        if items.len() == 0 {
            return Ok((make_rdf("nil"), end));
        }
        let head = self.fresh_blank();
        let mut cell = head.clone();
        let n: usize = items.len();
        let mut k: usize = 0;
        let ghost start = self@;
        assert(terms_text(items@).len() == n);
        while k < n
            invariant
                n == items@.len(),
                n == terms_text(items@).len(),
                k <= n,
                k < n ==> cells(self@, terms_text(items@), k as int, cell@) == cells(
                    start,
                    terms_text(items@),
                    0,
                    head@,
                ),
                k == n ==> self@ == cells(start, terms_text(items@), 0, head@),
            decreases n - k,
        {
            assert(terms_text(items@)[k as int] == items@[k as int]@);
            let first = make_rdf("first");
            self.emit(&cell, &first, items[k].clone());
            let next = if k + 1 == n {
                make_rdf("nil")
            } else {
                self.fresh_blank()
            };
            let rest = make_rdf("rest");
            self.emit(&cell, &rest, next.clone());
            cell = next;
            k += 1;
        }
        Ok((head, end))
    }

    /// Reads a statement about a subject.
    fn triples(&mut self, cs: &[char], pos: usize) -> (r: Result<usize, String>)
        requires
            pos <= cs@.len(),
        ensures
            match r {
                Ok(end) => triples_at(cs@, pos as int, old(self)@) == Ok::<((), int, Doc), Seq<char>>(
                    ((), end as int, final(self)@),
                ) && pos < end <= cs@.len(),
                Err(e) => triples_at(cs@, pos as int, old(self)@) == Err::<((), int, Doc), Seq<char>>(e@),
            },
    {
        let p: usize = skip_space(cs, pos);
        let (subject, q) = if is_at(cs, p, '[') {
            let (node, q) = match self.blank_node_property_list(cs, p, 0) {
                Ok(x) => x,
                Err(e) => {
                    return Err(e);
                },
            };
            let dot: usize = skip_space(cs, q);
            if is_at(cs, dot, '.') {
                return Ok(dot + 1);
            }
            (node, dot)
        } else if is_at(cs, p, '(') {
            match self.collection(cs, p, 0) {
                Ok(x) => x,
                Err(e) => {
                    return Err(e);
                },
            }
        } else {
            match read_term(cs, p, &self.names) {
                Ok((Some(t), end)) => (t, end),
                Ok((None, end)) => {
                    return Err(fail(cs, end, "expected a subject"));
                },
                Err(e) => {
                    return Err(e);
                },
            }
        };
        let r: usize = match self.predicate_object_list(cs, &subject, q, 0) {
            Ok(r) => r,
            Err(e) => {
                return Err(e);
            },
        };
        let u: usize = skip_space(cs, r);
        if is_at(cs, u, '.') {
            Ok(u + 1)
        } else {
            Err(fail(cs, u, "expected '.' at the end of the statement"))
        }
    }

    /// Reads the dot after a directive.
    fn dot(&mut self, cs: &[char], pos: usize, dot: bool, msg: &str) -> (r: Result<usize, String>)
        requires
            pos <= cs@.len(),
        ensures
            final(self)@ == old(self)@,
            match r {
                Ok(end) => dot_after(cs@, pos as int, old(self)@, dot, msg@) == Ok::<
                    ((), int, Doc),
                    Seq<char>,
                >(((), end as int, old(self)@)) && pos <= end <= cs@.len(),
                Err(e) => dot_after(cs@, pos as int, old(self)@, dot, msg@) == Err::<
                    ((), int, Doc),
                    Seq<char>,
                >(e@),
            },
    {
        if !dot {
            return Ok(pos);
        }
        let p: usize = skip_space(cs, pos);
        if is_at(cs, p, '.') {
            Ok(p + 1)
        } else {
            Err(fail(cs, p, msg))
        }
    }

    /// Reads the declaration of a prefix.
    fn prefix_decl(&mut self, cs: &[char], pos: usize, dot: bool) -> (r: Result<usize, String>)
        requires
            pos <= cs@.len(),
        ensures
            match r {
                Ok(end) => prefix_decl(cs@, pos as int, old(self)@, dot) == Ok::<
                    ((), int, Doc),
                    Seq<char>,
                >(((), end as int, final(self)@)) && pos < end <= cs@.len(),
                Err(e) => prefix_decl(cs@, pos as int, old(self)@, dot) == Err::<
                    ((), int, Doc),
                    Seq<char>,
                >(e@),
            },
    {
        let p: usize = skip_space(cs, pos);
        let colon: usize = find_colon(cs, p);
        if colon >= cs.len() {
            return Err(fail(cs, p, "prefix declaration without ':'"));
        }
        if !is_legal_prefix(cs, p, colon) {
            return Err(fail(cs, p, "illegal prefix label"));
        }
        let name = text_between(cs, p, colon);
        let q: usize = skip_space(cs, colon + 1);
        if !is_at(cs, q, '<') {
            return Err(fail(cs, q, "prefix declaration without an IRI"));
        }
        let (target, end) = match read_iri(cs, q, &self.names.base) {
            Ok(x) => x,
            Err(e) => {
                return Err(e);
            },
        };
        self.names.prefixes.push((name, target));
        assert(prefixes_view(self.names.prefixes@) =~= prefixes_view(old(self).names.prefixes@).push(
            (name@, target@),
        ));
        self.dot(cs, end, dot, "expected '.' after @prefix")
    }

    /// Reads the declaration of the base.
    fn base_decl(&mut self, cs: &[char], pos: usize, dot: bool) -> (r: Result<usize, String>)
        requires
            pos <= cs@.len(),
        ensures
            match r {
                Ok(end) => base_decl(cs@, pos as int, old(self)@, dot) == Ok::<
                    ((), int, Doc),
                    Seq<char>,
                >(((), end as int, final(self)@)) && pos < end <= cs@.len(),
                Err(e) => base_decl(cs@, pos as int, old(self)@, dot) == Err::<
                    ((), int, Doc),
                    Seq<char>,
                >(e@),
            },
    {
        let q: usize = skip_space(cs, pos);
        if !is_at(cs, q, '<') {
            return Err(fail(cs, q, "base declaration without an IRI"));
        }
        let (target, end) = match read_iri(cs, q, &self.names.base) {
            Ok(x) => x,
            Err(e) => {
                return Err(e);
            },
        };
        self.names.base = Some(target);
        self.dot(cs, end, dot, "expected '.' after @base")
    }

    /// Reads a statement or a directive.
    fn statement(&mut self, cs: &[char], pos: usize) -> (r: Result<usize, String>)
        requires
            pos <= cs@.len(),
        ensures
            match r {
                Ok(end) => statement_at(cs@, pos as int, old(self)@) == Ok::<((), int, Doc), Seq<char>>(
                    ((), end as int, final(self)@),
                ) && pos < end <= cs@.len(),
                Err(e) => statement_at(cs@, pos as int, old(self)@) == Err::<
                    ((), int, Doc),
                    Seq<char>,
                >(e@),
            },
    {
        let n: usize = cs.len();
        proof {
            reveal_strlit("@prefix");
            reveal_strlit("@base");
            reveal_strlit("PREFIX");
            reveal_strlit("BASE");
        }
        if stands_at(cs, pos, "@prefix") {
            self.prefix_decl(cs, pos + 7, true)
        } else if stands_at(cs, pos, "@base") {
            self.base_decl(cs, pos + 5, true)
        } else if is_keyword(cs, pos, "PREFIX") {
            self.prefix_decl(cs, pos + 6, false)
        } else if is_keyword(cs, pos, "BASE") {
            self.base_decl(cs, pos + 4, false)
        } else {
            self.triples(cs, pos)
        }
    }

    /// Reads a whole document.
    fn document(&mut self, cs: &[char]) -> (r: Result<(), String>)
        ensures
            match r {
                Ok(_) => document_from(cs@, 0, old(self)@) == Ok::<Seq<TripleText>, Seq<char>>(
                    final(self)@.out,
                ),
                Err(e) => document_from(cs@, 0, old(self)@) == Err::<Seq<TripleText>, Seq<char>>(e@),
            },
    {
        let n: usize = cs.len();
        let mut pos: usize = 0;
        loop
            invariant
                n == cs@.len(),
                pos <= n,
                document_from(cs@, pos as int, self@) == document_from(cs@, 0, old(self)@),
            decreases n - pos,
        {
            let p: usize = skip_space(cs, pos);
            if p >= n {
                return Ok(());
            }
            let ghost before = self@;
            match self.statement(cs, p) {
                Ok(q) => {
                    assert(document_from(cs@, pos as int, before) == document_from(
                        cs@,
                        q as int,
                        self@,
                    ));
                    pos = q;
                },
                Err(e) => {
                    return Err(e);
                },
            }
        }
    }
}

fn find_colon(cs: &[char], pos: usize) -> (r: usize)
    requires
        pos <= cs@.len(),
    ensures
        r == colon_from(cs@, pos as int),
        pos <= r <= cs@.len(),
{
    let n: usize = cs.len();
    let mut i: usize = pos;
    while i < n && cs[i] != ':'
        invariant
            n == cs@.len(),
            pos <= i <= n,
            colon_from(cs@, i as int) == colon_from(cs@, pos as int),
        decreases n - i,
    {
        i += 1;
    }
    i
}

fn is_legal_prefix(cs: &[char], from: usize, to: usize) -> (r: bool)
    requires
        from <= to <= cs@.len(),
    ensures
        r == legal_prefix(cs@.subrange(from as int, to as int)),
{
    let ghost name = cs@.subrange(from as int, to as int);
    if from == to {
        return true;
    }
    assert(name[0] == cs@[from as int]);
    if !is_name_start_char(cs[from]) {
        return false;
    }
    let mut i: usize = from;
    while i < to
        invariant
            from <= i <= to <= cs@.len(),
            name == cs@.subrange(from as int, to as int),
            forall|k: int| 0 <= k < i - from ==> name_char(#[trigger] name[k]),
        decreases to - i,
    {
        assert(name[i - from] == cs@[i as int]);
        if !is_name_char(cs[i]) {
            return false;
        }
        i += 1;
    }
    true
}

fn is_same_letter(c: char, upper: char) -> (r: bool)
    ensures
        r == same_letter(c, upper),
{
    c == upper || ('a' <= c && c <= 'z' && code_of(c) - 32 == code_of(upper))
}

fn is_keyword(cs: &[char], pos: usize, kw: &str) -> (r: bool)
    requires
        pos <= cs@.len(),
    ensures
        r == keyword_at(cs@, pos as int, kw@),
{
    let ks: Vec<char> = chars_of(kw);
    let n: usize = cs.len();
    if n - pos < ks.len() {
        return false;
    }
    let mut i: usize = 0;
    while i < ks.len()
        invariant
            ks@ == kw@,
            n == cs@.len(),
            pos + ks@.len() <= n,
            i <= ks@.len(),
            forall|k: int| 0 <= k < i ==> same_letter(cs@[pos + k], #[trigger] kw@[k]),
        decreases ks@.len() - i,
    {
        if !is_same_letter(cs[pos + i], ks[i]) {
            assert(!same_letter(cs@[pos + i], kw@[i as int]));
            return false;
        }
        i += 1;
    }
    true
}

/// Reads a Turtle document. An error names its line.
pub fn parse_turtle_str(text: &str) -> (r: Result<Vec<ParsedTriple>, String>)
    ensures
        match r {
            Ok(ts) => turtle_triples(text@) == Ok::<Seq<TripleText>, Seq<char>>(triples_text(ts@)),
            Err(e) => turtle_triples(text@) == Err::<Seq<TripleText>, Seq<char>>(e@),
        },
{
    let all: Vec<char> = chars_of(text);
    let mut p = Parser {
        names: NameTable { base: None, prefixes: Vec::new() },
        out: Vec::new(),
        fresh: 0,
    };
    assert(p@ == empty_doc()) by {
        assert(prefixes_view(p.names.prefixes@) =~= Seq::empty());
        assert(triples_text(p.out@) =~= Seq::empty());
    }
    let n: usize = all.len();
    let start: usize = if n > 0 && all[0] == '\u{feff}' {
        1
    } else {
        0
    };
    let cs: &[char] = vstd::slice::slice_subrange(all.as_slice(), start, n);
    assert(cs@ =~= if start == 1 {
        text@.skip(1)
    } else {
        text@
    });
    match p.document(cs) {
        Ok(_) => Ok(p.out),
        Err(e) => Err(e),
    }
}

pub open spec fn terms_text(ts: Seq<ParsedTerm>) -> Seq<TermText> {
    ts.map_values(|t: ParsedTerm| t@)
}

} // verus!
