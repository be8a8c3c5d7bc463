//! Terms and their identifiers.

use crate::bytes::{
    compare_bytes, le32, le64, pad_to, push_u32, push_u32s, push_u64s, read_u32, read_u64, side,
    utf8_text, Side,
};
use crate::hypertrie::index::{clamped, times};
use crate::interner::{
    interned, interner_add, interner_clone, interner_get, interner_len, interner_new, interner_resolve,
    Interner,
};
use crate::order::{merge_sort, Rank};
use crate::text::{chars_of, has_prefix_at, same_text, string_of};
use std::sync::Arc;
use vstd::prelude::*;
use vstd::slice::slice_subrange;
use vstd::string::StringSliceAdditionalSpecFns;
use vstd::utf8::encode_utf8;

verus! {

/// The type of a term, as text.
pub enum TermKind {
    Iri,
    Literal { datatype: Option<Seq<char>>, lang: Option<Seq<char>> },
    BlankNode,
}

/// Type of an RDF term.
#[derive(Debug, PartialEq, Eq)]
pub enum TermType {
    Iri,
    Literal { datatype: Option<String>, lang: Option<String> },
    BlankNode,
}

/// The text behind an optional string.
pub open spec fn opt_text(s: Option<String>) -> Option<Seq<char>> {
    match s {
        Some(t) => Some(t@),
        None => None,
    }
}

impl View for TermType {
    type V = TermKind;

    open spec fn view(&self) -> TermKind {
        match *self {
            TermType::Iri => TermKind::Iri,
            TermType::Literal { datatype, lang } => TermKind::Literal {
                datatype: opt_text(datatype),
                lang: opt_text(lang),
            },
            TermType::BlankNode => TermKind::BlankNode,
        }
    }
}

/// A literal without datatype and language.
pub open spec fn plain() -> TermKind {
    TermKind::Literal { datatype: None, lang: None }
}

/// A literal with a language tag.
pub open spec fn tagged(lang: Seq<char>) -> TermKind {
    TermKind::Literal { datatype: None, lang: Some(lang) }
}

/// A literal with a datatype.
pub open spec fn typed(datatype: Seq<char>) -> TermKind {
    TermKind::Literal { datatype: Some(datatype), lang: None }
}

impl TermType {
    pub fn iri() -> (r: TermType)
        ensures
            r@ == TermKind::Iri,
    {
        TermType::Iri
    }

    pub fn literal_plain() -> (r: TermType)
        ensures
            r@ == plain(),
    {
        TermType::Literal { datatype: None, lang: None }
    }

    pub fn literal_lang(lang: String) -> (r: TermType)
        ensures
            r@ == tagged(lang@),
    {
        TermType::Literal { datatype: None, lang: Some(lang) }
    }

    pub fn literal_datatype(datatype: String) -> (r: TermType)
        ensures
            r@ == typed(datatype@),
    {
        TermType::Literal { datatype: Some(datatype), lang: None }
    }
}

impl Clone for TermType {
    fn clone(&self) -> (r: TermType)
        ensures
            r@ == self@,
    {
        match self {
            TermType::Iri => TermType::Iri,
            TermType::BlankNode => TermType::BlankNode,
            TermType::Literal { datatype, lang } => TermType::Literal {
                datatype: copy_text(datatype),
                lang: copy_text(lang),
            },
        }
    }
}

fn copy_text(s: &Option<String>) -> (r: Option<String>)
    ensures
        opt_text(r) == opt_text(*s),
{
    match s {
        Some(t) => Some(t.clone()),
        None => None,
    }
}

// --- Keys ------------------------------------------------------------------

/// Marks a folded namespace.
pub const NS_ESC: char = '\u{2}';

/// Stands between the type part and the lexical value of a key.
pub const SEP: char = '\u{1}';

/// How many namespaces are folded.
pub const NS_COUNT: usize = 13;

/// The folded namespaces, longer ones before their prefixes. The code letter of
/// a namespace is its position from `A`.
pub open spec fn ns_prefixes() -> Seq<Seq<char>> {
    seq![
        "http://www.wikidata.org/entity/statement/"@,
        "http://www.wikidata.org/prop/direct-normalized/"@,
        "http://www.wikidata.org/prop/direct/"@,
        "http://www.wikidata.org/prop/statement/"@,
        "http://www.wikidata.org/prop/qualifier/"@,
        "http://www.wikidata.org/prop/reference/"@,
        "http://www.wikidata.org/entity/"@,
        "http://www.wikidata.org/prop/"@,
        "http://www.w3.org/2001/XMLSchema#"@,
        "http://www.w3.org/1999/02/22-rdf-syntax-ns#"@,
        "http://www.w3.org/2000/01/rdf-schema#"@,
        "http://www.w3.org/2004/02/skos/core#"@,
        "http://schema.org/"@,
    ]
}

fn ns_prefix(i: usize) -> (r: &'static str)
    requires
        i < NS_COUNT,
    ensures
        r@ == ns_prefixes()[i as int],
{
    if i == 0 {
        "http://www.wikidata.org/entity/statement/"
    } else if i == 1 {
        "http://www.wikidata.org/prop/direct-normalized/"
    } else if i == 2 {
        "http://www.wikidata.org/prop/direct/"
    } else if i == 3 {
        "http://www.wikidata.org/prop/statement/"
    } else if i == 4 {
        "http://www.wikidata.org/prop/qualifier/"
    } else if i == 5 {
        "http://www.wikidata.org/prop/reference/"
    } else if i == 6 {
        "http://www.wikidata.org/entity/"
    } else if i == 7 {
        "http://www.wikidata.org/prop/"
    } else if i == 8 {
        "http://www.w3.org/2001/XMLSchema#"
    } else if i == 9 {
        "http://www.w3.org/1999/02/22-rdf-syntax-ns#"
    } else if i == 10 {
        "http://www.w3.org/2000/01/rdf-schema#"
    } else if i == 11 {
        "http://www.w3.org/2004/02/skos/core#"
    } else {
        "http://schema.org/"
    }
}

/// The first namespace at or after position `from` that the IRI begins with.
pub open spec fn ns_of(iri: Seq<char>, from: int) -> Option<int>
    decreases NS_COUNT - from,
{
    if from < 0 || from >= NS_COUNT {
        None
    } else if ns_prefixes()[from].is_prefix_of(iri) {
        Some(from)
    } else {
        ns_of(iri, from + 1)
    }
}

/// An IRI with a known namespace replaced by its two-character code.
pub open spec fn folded(iri: Seq<char>) -> Seq<char> {
    match ns_of(iri, 0) {
        Some(i) => seq![NS_ESC, ('A' as int + i) as char] + iri.skip(ns_prefixes()[i].len() as int),
        None => iri,
    }
}

/// Whether the text begins with a namespace code.
pub open spec fn has_ns_code(s: Seq<char>) -> bool {
    s.len() >= 2 && s[0] == NS_ESC && 'A' <= s[1] <= 'M'
}

/// The IRI behind a folded text.
pub open spec fn unfolded(s: Seq<char>) -> Seq<char> {
    if has_ns_code(s) {
        ns_prefixes()[s[1] as int - 'A' as int] + s.skip(2)
    } else {
        s
    }
}

/// The letter at position `i` of the namespace codes.
fn ns_letter(i: usize) -> (c: char)
    requires
        i < NS_COUNT,
    ensures
        c == ('A' as int + i) as char,
{
    match char::from_u32(65 + i as u32) {
        Some(c) => c,
        None => 'A',
    }
}

pub fn fold_iri(iri: &str) -> (out: String)
    ensures
        out@ == folded(iri@),
{
    let cs: Vec<char> = chars_of(iri);
    let mut i: usize = 0;
    assert(cs@.skip(0) =~= cs@);
    while i < NS_COUNT
        invariant
            i <= NS_COUNT,
            cs@ == iri@,
            cs@.skip(0) == cs@,
            ns_of(iri@, 0) == ns_of(iri@, i as int),
        decreases NS_COUNT - i,
    {
        let pre: &str = ns_prefix(i);
        if has_prefix_at(cs.as_slice(), 0, pre) {
            let skip: Vec<char> = chars_of(pre);
            let mut out: String = String::new();
            out.push(NS_ESC);
            out.push(ns_letter(i));
            let rest: String = string_of(slice_subrange(cs.as_slice(), skip.len(), cs.len()));
            out.push_str(rest.as_str());
            proof {
                assert(rest@ =~= iri@.skip(skip@.len() as int));
                assert(out@ =~= folded(iri@));
            }
            return out;
        }
        i += 1;
    }
    string_of(cs.as_slice())
}

/// Inverse of [`fold_iri`].
pub fn unfold_iri(s: &str) -> (out: String)
    ensures
        out@ == unfolded(s@),
{
    let cs: Vec<char> = chars_of(s);
    unfold_chars(cs.as_slice())
}

fn unfold_chars(cs: &[char]) -> (out: String)
    ensures
        out@ == unfolded(cs@),
{
    if cs.len() >= 2 && cs[0] == NS_ESC && 'A' <= cs[1] && cs[1] <= 'M' {
        let i: usize = (cs[1] as u32 - 65) as usize;
        let mut out: String = String::new();
        out.push_str(ns_prefix(i));
        let rest: String = string_of(slice_subrange(cs, 2, cs.len()));
        out.push_str(rest.as_str());
        proof {
            assert(rest@ =~= cs@.skip(2));
            assert(out@ =~= unfolded(cs@));
        }
        out
    } else {
        string_of(cs)
    }
}

/// Every IRI that does not itself begin with a namespace code survives folding.
pub proof fn law_fold_round_trip(iri: Seq<char>)
    requires
        !has_ns_code(iri),
    ensures
        unfolded(folded(iri)) == iri,
{
    lemma_ns_of(iri, 0);
    match ns_of(iri, 0) {
        Some(i) => {
            let p = ns_prefixes()[i];
            let f = folded(iri);
            assert(f[0] == NS_ESC);
            assert(f[1] == ('A' as int + i) as char);
            assert(f.skip(2) =~= iri.skip(p.len() as int));
            assert(p + iri.skip(p.len() as int) =~= iri) by {
                assert(iri.subrange(0, p.len() as int) == p);
            }
        },
        None => {},
    }
}

proof fn lemma_ns_of(iri: Seq<char>, from: int)
    requires
        0 <= from <= NS_COUNT,
    ensures
        ns_of(iri, from) matches Some(i) ==> from <= i < NS_COUNT && ns_prefixes()[i].is_prefix_of(iri),
    decreases NS_COUNT - from,
{
    if from < NS_COUNT && !ns_prefixes()[from].is_prefix_of(iri) {
        lemma_ns_of(iri, from + 1);
    }
}

/// The datatype of plain literals.
pub open spec fn xsd_string() -> Seq<char> {
    "http://www.w3.org/2001/XMLSchema#string"@
}

/// The key of a term: its type and its lexical value in one text.
pub open spec fn term_key(value: Seq<char>, typ: TermKind) -> Seq<char> {
    match typ {
        TermKind::Iri => seq!['I', SEP] + folded(value),
        TermKind::BlankNode => seq!['B', SEP] + value,
        TermKind::Literal { datatype, lang } => match (lang, datatype) {
            (Some(l), _) => seq!['G'] + l + seq![SEP] + value,
            (None, Some(d)) => if d == xsd_string() {
                seq!['L', SEP] + value
            } else {
                seq!['D'] + folded(d) + seq![SEP] + value
            },
            (None, None) => seq!['L', SEP] + value,
        },
    }
}

/// Position of the first separator, or the length.
pub open spec fn sep_pos(key: Seq<char>) -> nat {
    crate::hypertrie::export::run_length(key, |c: char| c == SEP)
}

/// The part of a key after its first separator; the whole key if it has none.
pub open spec fn key_tail(key: Seq<char>) -> Seq<char> {
    if sep_pos(key) < key.len() {
        key.skip(sep_pos(key) as int + 1)
    } else {
        key
    }
}

/// The lexical value behind a key.
pub open spec fn key_value(key: Seq<char>) -> Seq<char> {
    if key.len() > 0 && key[0] == 'I' {
        unfolded(key_tail(key))
    } else {
        key_tail(key)
    }
}

/// The type behind a key.
pub open spec fn key_kind(key: Seq<char>) -> TermKind {
    if key.len() == 0 {
        TermKind::Iri
    } else if key[0] == 'B' {
        TermKind::BlankNode
    } else if key[0] == 'L' {
        plain()
    } else if key[0] == 'G' {
        tagged(key.subrange(1, sep_pos(key) as int))
    } else if key[0] == 'D' {
        typed(unfolded(key.subrange(1, sep_pos(key) as int)))
    } else {
        TermKind::Iri
    }
}

/// The key of a term.
pub fn encode_key(value: &str, typ: &TermType) -> (key: String)
    ensures
        key@ == term_key(value@, typ@),
{
    let mut key: String = String::new();
    match typ {
        TermType::Iri => {
            key.push('I');
            key.push(SEP);
            let f: String = fold_iri(value);
            key.push_str(f.as_str());
            assert(key@ =~= term_key(value@, typ@));
        },
        TermType::BlankNode => {
            key.push('B');
            key.push(SEP);
            key.push_str(value);
            assert(key@ =~= term_key(value@, typ@));
        },
        TermType::Literal { datatype, lang } => {
            match lang {
                Some(l) => {
                    key.push('G');
                    key.push_str(l.as_str());
                    key.push(SEP);
                    key.push_str(value);
                },
                None => {
                    match datatype {
                        Some(d) => {
                            if same_text(d.as_str(), "http://www.w3.org/2001/XMLSchema#string") {
                                key.push('L');
                                key.push(SEP);
                                key.push_str(value);
                            } else {
                                key.push('D');
                                let f: String = fold_iri(d.as_str());
                                key.push_str(f.as_str());
                                key.push(SEP);
                                key.push_str(value);
                            }
                        },
                        None => {
                            key.push('L');
                            key.push(SEP);
                            key.push_str(value);
                        },
                    }
                },
            }
            assert(key@ =~= term_key(value@, typ@));
        },
    }
    key
}

fn find_sep(cs: &[char]) -> (end: usize)
    ensures
        end <= cs@.len(),
        end == sep_pos(cs@),
{
    let ghost stop = |c: char| c == SEP;
    let mut i: usize = 0;
    assert(cs@.skip(0) =~= cs@);
    while i < cs.len() && cs[i] != SEP
        invariant
            i <= cs@.len(),
            stop == (|c: char| c == SEP),
            crate::hypertrie::export::run_length(cs@, stop) == i
                + crate::hypertrie::export::run_length(cs@.skip(i as int), stop),
        decreases cs@.len() - i,
    {
        assert(cs@.skip(i as int).drop_first() =~= cs@.skip(i + 1));
        i += 1;
    }
    i
}

/// The lexical value behind a key.
pub fn decode_value(key: &str) -> (value: String)
    ensures
        value@ == key_value(key@),
{
    let cs: Vec<char> = chars_of(key);
    let sep: usize = find_sep(cs.as_slice());
    let n: usize = cs.len();
    let start: usize = if sep < n {
        sep + 1
    } else {
        0
    };
    let tail: &[char] = slice_subrange(cs.as_slice(), start, n);
    assert(tail@ =~= key_tail(key@));
    if n > 0 && cs[0] == 'I' {
        unfold_chars(tail)
    } else {
        string_of(tail)
    }
}

/// The type behind a key.
pub fn decode_type(key: &str) -> (typ: TermType)
    ensures
        typ@ == key_kind(key@),
{
    let cs: Vec<char> = chars_of(key);
    if cs.len() == 0 {
        return TermType::Iri;
    }
    let head: char = cs[0];
    if head == 'B' {
        TermType::BlankNode
    } else if head == 'L' {
        TermType::literal_plain()
    } else if head == 'G' {
        let sep: usize = find_sep(cs.as_slice());
        TermType::literal_lang(string_of(slice_subrange(cs.as_slice(), 1, sep)))
    } else if head == 'D' {
        let sep: usize = find_sep(cs.as_slice());
        TermType::literal_datatype(unfold_chars(slice_subrange(cs.as_slice(), 1, sep)))
    } else {
        TermType::Iri
    }
}

/// The term that a key can hand back: `xsd:string` becomes a plain literal, and a
/// language stands for itself.
pub open spec fn canonical(typ: TermKind) -> TermKind {
    match typ {
        TermKind::Literal { datatype, lang } => match (lang, datatype) {
            (Some(l), _) => tagged(l),
            (None, Some(d)) => if d == xsd_string() {
                plain()
            } else {
                typed(d)
            },
            (None, None) => plain(),
        },
        _ => typ,
    }
}

/// Terms whose key can be read back: no control characters of the key format in
/// an IRI, a language or a datatype. Lexical values are free.
pub open spec fn encodable(value: Seq<char>, typ: TermKind) -> bool {
    match typ {
        TermKind::Iri => !has_ns_code(value),
        TermKind::BlankNode => true,
        TermKind::Literal { datatype, lang } => match (lang, datatype) {
            (Some(l), _) => !l.contains(SEP),
            (None, Some(d)) => !d.contains(SEP) && !has_ns_code(d),
            (None, None) => true,
        },
    }
}

/// A key gives back the value and the type that it was made of.
pub proof fn law_key_round_trip(value: Seq<char>, typ: TermKind)
    requires
        encodable(value, typ),
    ensures
        key_value(term_key(value, typ)) == value,
        key_kind(term_key(value, typ)) == canonical(typ),
{
    let key = term_key(value, typ);
    let stop = |c: char| c == SEP;
    match typ {
        TermKind::Iri => {
            lemma_sep(seq!['I'], folded(value));
            assert(key =~= seq!['I'] + seq![SEP] + folded(value));
            law_fold_round_trip(value);
        },
        TermKind::BlankNode => {
            lemma_sep(seq!['B'], value);
            assert(key =~= seq!['B'] + seq![SEP] + value);
        },
        TermKind::Literal { datatype, lang } => match (lang, datatype) {
            (Some(l), _) => {
                lemma_sep(seq!['G'] + l, value);
                assert(key.subrange(1, l.len() as int + 1) =~= l);
            },
            (None, Some(d)) => {
                if d == xsd_string() {
                    lemma_sep(seq!['L'], value);
                    assert(key =~= seq!['L'] + seq![SEP] + value);
                } else {
                    law_fold_round_trip(d);
                    lemma_ns_of(d, 0);
                    let f = folded(d);
                    assert(!f.contains(SEP)) by {
                        if f.contains(SEP) {
                            let k = choose|k: int| 0 <= k < f.len() && f[k] == SEP;
                            if ns_of(d, 0) is Some {
                                let i = ns_of(d, 0)->0;
                                if k >= 2 {
                                    assert(d[k - 2 + ns_prefixes()[i].len()] == SEP);
                                }
                            } else {
                                assert(d[k] == SEP);
                            }
                        }
                    }
                    lemma_sep(seq!['D'] + f, value);
                    assert(key.subrange(1, f.len() as int + 1) =~= f);
                }
            },
            (None, None) => {
                lemma_sep(seq!['L'], value);
                assert(key =~= seq!['L'] + seq![SEP] + value);
            },
        },
    }
}

proof fn lemma_sep(head: Seq<char>, tail: Seq<char>)
    requires
        !head.contains(SEP),
    ensures
        sep_pos(head + seq![SEP] + tail) == head.len(),
        key_tail(head + seq![SEP] + tail) == tail,
        (head + seq![SEP] + tail)[head.len() as int] == SEP,
        head.len() > 0 ==> (head + seq![SEP] + tail)[0] == head[0],
{
    let stop = |c: char| c == SEP;
    assert forall|i: int| 0 <= i < head.len() implies !stop(#[trigger] head[i]) by {
        assert(head.contains(head[i]));
    }
    crate::hypertrie::export::lemma_run_length(head, SEP, tail, stop);
    assert((head + seq![SEP] + tail).skip(head.len() as int + 1) =~= tail);
}

/// A key that can be taken apart into a term and put together again.
pub open spec fn readable(key: Seq<char>) -> bool {
    term_key(key_value(key), key_kind(key)) == key
}

/// The key of every term without control characters is readable.
pub proof fn law_term_keys_readable(value: Seq<char>, kind: TermKind)
    requires
        encodable(value, kind),
    ensures
        readable(term_key(value, kind)),
{
    law_key_round_trip(value, kind);
}

/// Different terms have different keys: two readable terms share a key only if
/// they have the same value and, canonically, the same type.
pub proof fn law_key_injective(v1: Seq<char>, t1: TermKind, v2: Seq<char>, t2: TermKind)
    requires
        encodable(v1, t1),
        encodable(v2, t2),
        term_key(v1, t1) == term_key(v2, t2),
    ensures
        v1 == v2,
        canonical(t1) == canonical(t2),
{
    law_key_round_trip(v1, t1);
    law_key_round_trip(v2, t2);
}

/// A plain literal and one of type `xsd:string` are the same term.
pub proof fn law_plain_is_xsd_string(value: Seq<char>)
    ensures
        term_key(value, plain()) == term_key(value, typed(xsd_string())),
{
}

// --- The stored form of a dictionary ---------------------------------------

/// The bytes of the first `i` keys, one after the other.
pub open spec fn keys_blob(keys: Seq<Seq<char>>) -> Seq<u8>
    decreases keys.len(),
{
    if keys.len() == 0 {
        Seq::empty()
    } else {
        keys_blob(keys.drop_last()) + encode_utf8(keys.last())
    }
}

/// Where key `i` begins among the bytes of all keys.
pub open spec fn key_start(keys: Seq<Seq<char>>, i: int) -> nat {
    keys_blob(keys.take(i)).len()
}

proof fn lemma_key_start(keys: Seq<Seq<char>>, i: int)
    requires
        0 <= i < keys.len(),
    ensures
        key_start(keys, i + 1) == key_start(keys, i) + encode_utf8(keys[i]).len(),
        key_start(keys, i + 1) <= keys_blob(keys).len(),
        keys_blob(keys).subrange(key_start(keys, i) as int, key_start(keys, i + 1) as int)
            == encode_utf8(keys[i]),
    decreases keys.len(),
{
    assert(keys.take(i + 1).drop_last() =~= keys.take(i));
    let a = keys_blob(keys.take(i));
    let b = encode_utf8(keys[i]);
    if i + 1 == keys.len() {
        assert(keys.take(i + 1) =~= keys);
        assert((a + b).subrange(a.len() as int, (a + b).len() as int) =~= b);
    } else {
        let rest = keys.drop_last();
        assert(rest.take(i) =~= keys.take(i));
        assert(rest.take(i + 1) =~= keys.take(i + 1));
        lemma_key_start(rest, i);
        let whole = keys_blob(keys);
        assert(whole.subrange(a.len() as int, (a + b).len() as int) =~= keys_blob(rest).subrange(
            a.len() as int,
            (a + b).len() as int,
        ));
    }
}

/// A position brought up to a multiple of four.
pub open spec fn align4(p: nat) -> nat {
    p + crate::bytes::padding(p, 4)
}

/// Where the parts of a dictionary section begin.
pub open spec fn keys_at(off: nat, n: nat) -> nat {
    off + 8 + 8 * (n + 1)
}

pub open spec fn ids_at(off: nat, n: nat, blob: nat) -> nat {
    align4(keys_at(off, n) + blob)
}

/// Entry `i` of the table of key starts.
pub open spec fn offset_at(b: Seq<u8>, off: nat, i: int) -> u64 {
    le64(b, off + 8 + 8 * i)
}

/// Entry `i` of the table of ordered positions.
pub open spec fn id_at(b: Seq<u8>, s: nat, i: int) -> u32 {
    le32(b, s + 4 * i)
}

/// The bytes at `off` hold the keys: their number, where each begins, their
/// bytes, and their positions in the order of the keys.
#[verifier::opaque]
pub open spec fn dict_at(b: Seq<u8>, off: nat, keys: Seq<Seq<char>>) -> bool {
    let n = keys.len();
    let blob = keys_blob(keys);
    let k = keys_at(off, n);
    let s = ids_at(off, n, blob.len());
    &&& n <= u32::MAX
    &&& s + 4 * n <= b.len()
    &&& le32(b, off as int) == n
    &&& forall|i: int| 0 <= i <= n ==> #[trigger] offset_at(b, off, i) == key_start(keys, i)
    &&& b.subrange(k as int, (k + blob.len()) as int) == blob
    &&& forall|i: int| 0 <= i < n ==> #[trigger] id_at(b, s, i) < n
    &&& forall|i: int, j: int|
        #![trigger id_at(b, s, i), id_at(b, s, j)]
        0 <= i < j < n ==> side(
            encode_utf8(keys[id_at(b, s, i) as int]),
            encode_utf8(keys[id_at(b, s, j) as int]),
        ) == Side::Before
}

/// A section holds one list of keys.
pub proof fn lemma_dict_at_unique(b: Seq<u8>, off: nat, a: Seq<Seq<char>>, c: Seq<Seq<char>>)
    requires
        dict_at(b, off, a),
        dict_at(b, off, c),
    ensures
        a == c,
{
    reveal(dict_at);
    assert(a.len() == c.len());
    let n = a.len() as int;
    assert(a.take(n) =~= a);
    assert(c.take(n) =~= c);
    assert(offset_at(b, off, n) == key_start(a, n));
    assert(offset_at(b, off, n) == key_start(c, n));
    assert(keys_blob(a) == keys_blob(c));
    assert forall|i: int| 0 <= i < n implies a[i] == c[i] by {
        lemma_key_start(a, i);
        lemma_key_start(c, i);
        assert(offset_at(b, off, i) == key_start(a, i));
        assert(offset_at(b, off, i) == key_start(c, i));
        assert(offset_at(b, off, (i + 1)) == key_start(a, i + 1));
        assert(offset_at(b, off, (i + 1)) == key_start(c, i + 1));
        crate::bytes::lemma_utf8_injective(a[i], c[i]);
    }
    assert(a =~= c);
}

/// Whether position `x` is among the first `n` ordered positions.
spec fn listed(b: Seq<u8>, s: nat, n: nat, x: int) -> bool {
    exists|i: int| 0 <= i < n && #[trigger] id_at(b, s, i) == x
}

/// Every position occurs among the ordered positions, and the keys are distinct.
proof fn lemma_dict_at_ids(b: Seq<u8>, off: nat, keys: Seq<Seq<char>>)
    requires
        dict_at(b, off, keys),
    ensures
        keys.no_duplicates(),
        forall|x: int|
            0 <= x < keys.len() ==> #[trigger] listed(
                b,
                ids_at(off, keys.len(), keys_blob(keys).len()),
                keys.len(),
                x,
            ),
{
    reveal(dict_at);
    let n = keys.len();
    let s = ids_at(off, n, keys_blob(keys).len());
    let ids = Seq::new(n, |i: int| id_at(b, s, i) as int);
    assert forall|i: int, j: int| 0 <= i < j < n implies ids[i] != ids[j] by {
        assert(id_at(b, s, i) < n && id_at(b, s, j) < n);
        crate::bytes::lemma_side(
            encode_utf8(keys[ids[i]]),
            encode_utf8(keys[ids[j]]),
        );
    }
    ids.unique_seq_to_set();
    let all = vstd::set_lib::set_int_range(0, n as int);
    vstd::set_lib::lemma_int_range(0, n as int);
    assert(ids.to_set().subset_of(all)) by {
        assert forall|x: int| ids.to_set().contains(x) implies all.contains(x) by {
            let i = choose|i: int| 0 <= i < ids.len() && ids[i] == x;
            assert(id_at(b, s, i) < n);
        }
    }
    vstd::set_lib::lemma_subset_equality(ids.to_set(), all);
    assert forall|x: int| 0 <= x < n implies #[trigger] listed(b, s, n, x) by {
        assert(all.contains(x));
        assert(ids.contains(x));
        let i = choose|i: int| 0 <= i < ids.len() && ids[i] == x;
        assert(id_at(b, s, i) == x);
    }
    assert forall|x: int, y: int| 0 <= x < n && 0 <= y < n && x != y implies keys[x] != keys[y] by {
        assert(listed(b, s, n, x) && listed(b, s, n, y));
        let i = choose|i: int| 0 <= i < n && #[trigger] id_at(b, s, i) == x;
        let j = choose|j: int| 0 <= j < n && #[trigger] id_at(b, s, j) == y;
        crate::bytes::lemma_side(encode_utf8(keys[x]), encode_utf8(keys[y]));
        crate::bytes::lemma_side(encode_utf8(keys[y]), encode_utf8(keys[x]));
        if i < j {
            assert(side(encode_utf8(keys[x]), encode_utf8(keys[y])) == Side::Before);
        } else {
            assert(side(encode_utf8(keys[y]), encode_utf8(keys[x])) == Side::Before);
        }
    }
}

/// Keys that are read from the shared bytes of a snapshot.
struct MappedDict {
    map: Arc<Vec<u8>>,
    off: usize,
    n: usize,
    keys_off: usize,
    sorted_off: usize,
    keys: Ghost<Seq<Seq<char>>>,
}

impl MappedDict {
    spec fn wf(&self) -> bool {
        &&& dict_at(self.map@, self.off as nat, self.keys@)
        &&& self.n == self.keys@.len()
        &&& self.keys_off == keys_at(self.off as nat, self.keys@.len())
        &&& self.sorted_off == ids_at(self.off as nat, self.keys@.len(), keys_blob(self.keys@).len())
        &&& self.n <= u32::MAX
        &&& self.sorted_off + 4 * self.n <= self.map@.len()
    }

    /// The bytes of key `id`.
    fn key_bytes(&self, id: usize) -> (r: &[u8])
        requires
            self.wf(),
            id < self.n,
        ensures
            r@ == encode_utf8(self.keys@[id as int]),
    {
        let bytes: &[u8] = (&*self.map).as_slice();
        let total: usize = bytes.len();
        proof {
            reveal(dict_at);
            lemma_key_start(self.keys@, id as int);
            assert(offset_at(self.map@, self.off as nat, id as int) == key_start(self.keys@, id as int));
            assert(offset_at(self.map@, self.off as nat, id + 1) == key_start(self.keys@, id + 1));
        }
        let lo: usize = read_u64(bytes, self.off + 8 + 8 * id) as usize;
        let hi: usize = read_u64(bytes, self.off + 8 + 8 * (id + 1)) as usize;
        let r: &[u8] = slice_subrange(bytes, self.keys_off + lo, self.keys_off + hi);
        proof {
            let blob = keys_blob(self.keys@);
            let k = self.keys_off as int;
            assert(self.map@.subrange(k, k + blob.len()) == blob);
            assert(r@ =~= blob.subrange(lo as int, hi as int)) by {
                assert forall|i: int| 0 <= i < hi - lo implies #[trigger] r@[i] == blob.subrange(
                    lo as int,
                    hi as int,
                )[i] by {
                    assert(blob[lo + i] == self.map@.subrange(k, k + blob.len())[lo + i]);
                }
            }
        }
        r
    }

    fn key(&self, id: usize) -> (r: &str)
        requires
            self.wf(),
            id < self.n,
        ensures
            r@ == self.keys@[id as int],
    {
        match utf8_text(self.key_bytes(id)) {
            Some(s) => {
                proof {
                    crate::bytes::lemma_utf8_injective(s@, self.keys@[id as int]);
                }
                s
            },
            None => {
                proof {
                    vstd::utf8::encode_utf8_valid_utf8(self.keys@[id as int]);
                }
                ""
            },
        }
    }

    fn sorted_id(&self, i: usize) -> (r: u32)
        requires
            self.wf(),
            i < self.n,
        ensures
            r == id_at(self.map@, self.sorted_off as nat, i as int),
            r < self.n,
    {
        let bytes: &[u8] = (&*self.map).as_slice();
        let total: usize = bytes.len();
        proof {
            reveal(dict_at);
            assert(id_at(self.map@, self.sorted_off as nat, i as int) < self.keys@.len());
        }
        read_u32(bytes, self.sorted_off + 4 * i)
    }

    /// Binary search over the ordered positions.
    fn lookup(&self, key: &str) -> (r: Option<u32>)
        requires
            self.wf(),
        ensures
            match r {
                Some(id) => id < self.n && self.keys@[id as int] == key@,
                None => !self.keys@.contains(key@),
            },
    {
        let want: &[u8] = key.as_bytes();
        let mut lo: usize = 0;
        let mut hi: usize = self.n;
        let ghost b = self.map@;
        let ghost s = self.sorted_off as nat;
        while lo < hi
            invariant
                self.wf(),
                lo <= hi <= self.n,
                b == self.map@,
                s == self.sorted_off,
                want@ == encode_utf8(key@),
                forall|i: int|
                    0 <= i < lo ==> side(
                        encode_utf8(self.keys@[#[trigger] id_at(b, s, i) as int]),
                        want@,
                    ) == Side::Before,
                forall|i: int|
                    hi <= i < self.n ==> side(
                        encode_utf8(self.keys@[#[trigger] id_at(b, s, i) as int]),
                        want@,
                    ) == Side::After,
            decreases hi - lo,
        {
            let mid: usize = lo + (hi - lo) / 2;
            let id: u32 = self.sorted_id(mid);
            let here: &[u8] = self.key_bytes(id as usize);
            let rel: Side = compare_bytes(here, want);
            proof {
                reveal(dict_at);
                crate::bytes::lemma_side(here@, want@);
            }
            match rel {
                Side::Before => {
                    proof {
                        assert forall|i: int| 0 <= i < mid + 1 implies side(
                            encode_utf8(self.keys@[#[trigger] id_at(b, s, i) as int]),
                            want@,
                        ) == Side::Before by {
                            if i < mid {
                                let x = encode_utf8(self.keys@[id_at(b, s, i) as int]);
                                assert(id_at(b, s, mid as int) == id);
                                assert(side(x, here@) == Side::Before);
                                crate::bytes::lemma_side_transitive(x, here@, want@);
                            }
                        }
                    }
                    lo = mid + 1;
                },
                Side::After => {
                    proof {
                        assert forall|i: int| mid <= i < self.n implies side(
                            encode_utf8(self.keys@[#[trigger] id_at(b, s, i) as int]),
                            want@,
                        ) == Side::After by {
                            if i > mid {
                                let x = encode_utf8(self.keys@[id_at(b, s, i) as int]);
                                assert(id_at(b, s, mid as int) == id);
                                assert(side(here@, x) == Side::Before);
                                crate::bytes::lemma_side(here@, want@);
                                crate::bytes::lemma_side_transitive(want@, here@, x);
                                crate::bytes::lemma_side(want@, x);
                            }
                        }
                    }
                    hi = mid;
                },
                Side::Same => {
                    proof {
                        crate::bytes::lemma_utf8_injective(self.keys@[id as int], key@);
                    }
                    return Some(id);
                },
            }
        }
        proof {
            lemma_dict_at_ids(self.map@, self.off as nat, self.keys@);
            if self.keys@.contains(key@) {
                let x = choose|x: int| 0 <= x < self.keys@.len() && self.keys@[x] == key@;
                assert(listed(b, s, self.keys@.len(), x));
                let i = choose|i: int| 0 <= i < self.keys@.len() && #[trigger] id_at(b, s, i) == x;
                crate::bytes::lemma_side(encode_utf8(self.keys@[x]), want@);
            }
        }
        None
    }
}

/// Identifiers for terms, in both directions.
///
/// A snapshot gives the dictionary a read-only base; terms that come later go
/// into the interner, with identifiers after those of the base.
pub struct Dictionary {
    mapped: Option<MappedDict>,
    interner: Interner,
}

impl Dictionary {
    /// The keys of the base.
    closed spec fn base_keys(&self) -> Seq<Seq<char>> {
        match self.mapped {
            Some(m) => m.keys@,
            None => Seq::empty(),
        }
    }

    /// The keys in the order of their identifiers.
    pub closed spec fn keys(&self) -> Seq<Seq<char>> {
        self.base_keys() + interned(self.interner)
    }

    pub closed spec fn wf(&self) -> bool {
        &&& self.mapped matches Some(m) ==> m.wf()
        &&& self.keys().no_duplicates()
        &&& self.keys().len() <= u32::MAX
    }

    /// A dictionary holds every key once, and every identifier is below
    /// `u32::MAX`.
    pub proof fn lemma_wf(&self)
        requires
            self.wf(),
        ensures
            self.keys().no_duplicates(),
            self.keys().len() <= u32::MAX,
    {
    }

    pub fn new() -> (r: Dictionary)
        ensures
            r.wf(),
            r.keys() == Seq::<Seq<char>>::empty(),
    {
        let r: Dictionary = Dictionary { mapped: None, interner: interner_new() };
        assert(r.keys() =~= Seq::<Seq<char>>::empty());
        r
    }

    fn base_n(&self) -> (n: usize)
        requires
            self.wf(),
        ensures
            n == self.base_keys().len(),
            n <= u32::MAX,
    {
        match &self.mapped {
            Some(m) => m.n,
            None => 0,
        }
    }

    /// The key of an identifier.
    pub fn raw_key(&self, id: u32) -> (r: Option<&str>)
        requires
            self.wf(),
        ensures
            match r {
                Some(k) => id < self.keys().len() && k@ == self.keys()[id as int],
                None => id >= self.keys().len(),
            },
    {
        let base: usize = self.base_n();
        if (id as usize) < base {
            match &self.mapped {
                Some(m) => Some(m.key(id as usize)),
                None => None,
            }
        } else {
            interner_resolve(&self.interner, id - base as u32)
        }
    }

    /// The identifier of a key.
    fn find_key(&self, key: &str) -> (r: Option<u32>)
        requires
            self.wf(),
        ensures
            match r {
                Some(id) => id < self.keys().len() && self.keys()[id as int] == key@,
                None => !self.keys().contains(key@),
            },
    {
        match &self.mapped {
            Some(m) => match m.lookup(key) {
                Some(id) => {
                    assert(self.keys()[id as int] == m.keys@[id as int]);
                    return Some(id);
                },
                None => {},
            },
            None => {},
        }
        let base: usize = self.base_n();
        match interner_get(&self.interner, key) {
            Some(k) => {
                assert(self.keys()[base + k] == interned(self.interner)[k as int]);
                Some((base + k) as u32)
            },
            None => {
                proof {
                    if self.keys().contains(key@) {
                        let i = choose|i: int| 0 <= i < self.keys().len() && self.keys()[i] == key@;
                        if i < base {
                            assert(self.base_keys()[i] == key@);
                        } else {
                            assert(interned(self.interner)[i - base] == key@);
                        }
                    }
                }
                None
            },
        }
    }

    /// The identifier of a term, which is added if it was not there.
    pub fn insert_with_type(&mut self, term: &str, typ: TermType) -> (id: u32)
        requires
            old(self).wf(),
            with_key(old(self).keys(), term_key(term@, typ@)).len() <= u32::MAX,
        ensures
            final(self).wf(),
            final(self).keys() == with_key(old(self).keys(), term_key(term@, typ@)),
            id < final(self).keys().len(),
            final(self).keys()[id as int] == term_key(term@, typ@),
    {
        let key: String = encode_key(term, &typ);
        self.insert_key(key.as_str())
    }

    /// Like [`insert_with_type`](Self::insert_with_type), and nothing if there is no
    /// identifier left for a new term.
    pub fn try_insert(&mut self, term: &str, typ: &TermType) -> (id: Option<u32>)
        requires
            old(self).wf(),
        ensures
            final(self).wf(),
            match id {
                Some(id) => final(self).keys() == with_key(old(self).keys(), term_key(term@, typ@))
                    && id < final(self).keys().len() && final(self).keys()[id as int] == term_key(
                    term@,
                    typ@,
                ),
                None => *final(self) == *old(self) && with_key(
                    old(self).keys(),
                    term_key(term@, typ@),
                ).len() > u32::MAX,
            },
    {
        let key: String = encode_key(term, typ);
        if self.len() >= 0xFFFF_FFFF {
            let found = self.find_key(key.as_str());
            proof {
                match found {
                    Some(id) => {
                        assert(self.keys().contains(key@));
                    },
                    None => {},
                }
            }
            return found;
        }
        Some(self.insert_key(key.as_str()))
    }

    fn insert_key(&mut self, key: &str) -> (id: u32)
        requires
            old(self).wf(),
            with_key(old(self).keys(), key@).len() <= u32::MAX,
        ensures
            final(self).wf(),
            final(self).keys() == with_key(old(self).keys(), key@),
            id < final(self).keys().len(),
            final(self).keys()[id as int] == key@,
    {
        let ghost k0 = self.keys();
        match self.find_key(key) {
            Some(id) => {
                assert(k0.contains(key@));
                id
            },
            None => {
                let base: usize = self.base_n();
                let ghost i0 = interned(self.interner);
                assert(!i0.contains(key@)) by {
                    if i0.contains(key@) {
                        let i = choose|i: int| 0 <= i < i0.len() && i0[i] == key@;
                        assert(k0[base + i] == key@);
                    }
                }
                let k: usize = interner_add(&mut self.interner, key);
                proof {
                    assert(self.keys() =~= k0.push(key@));
                    assert forall|x: int, y: int|
                        0 <= x < self.keys().len() && 0 <= y < self.keys().len() && x
                            != y implies self.keys()[x] != self.keys()[y] by {
                        if x == k0.len() {
                            assert(k0.contains(k0[y]));
                        }
                        if y == k0.len() {
                            assert(k0.contains(k0[x]));
                        }
                    }
                    assert(self.keys()[base + k] == key@);
                }
                (base + k) as u32
            },
        }
    }

    /// The identifier of an IRI, which is added if it was not there.
    pub fn insert(&mut self, term: &str) -> (id: u32)
        requires
            old(self).wf(),
            with_key(old(self).keys(), term_key(term@, TermKind::Iri)).len() <= u32::MAX,
        ensures
            final(self).wf(),
            final(self).keys() == with_key(old(self).keys(), term_key(term@, TermKind::Iri)),
            id < final(self).keys().len(),
            final(self).keys()[id as int] == term_key(term@, TermKind::Iri),
    {
        self.insert_with_type(term, TermType::Iri)
    }

    /// The identifier of a term, by lexical value and type.
    pub fn lookup_term(&self, value: &str, typ: &TermType) -> (r: Option<u32>)
        requires
            self.wf(),
        ensures
            r == self.id_of(term_key(value@, typ@)),
            r is None <==> !self.keys().contains(term_key(value@, typ@)),
            r matches Some(id) ==> id < self.keys().len() && self.keys()[id as int] == term_key(
                value@,
                typ@,
            ),
    {
        let key: String = encode_key(value, typ);
        let r: Option<u32> = self.find_key(key.as_str());
        proof {
            if r is Some {
                self.lemma_id_of(r->0);
                assert(self.keys().contains(key@));
            }
        }
        r
    }

    /// The identifier of a key.
    pub open spec fn id_of(&self, key: Seq<char>) -> Option<u32> {
        key_id(self.keys(), key)
    }

    /// An identifier is the position of its key.
    pub proof fn lemma_id_of(&self, id: u32)
        requires
            self.wf(),
            id < self.keys().len(),
        ensures
            self.id_of(self.keys()[id as int]) == Some(id),
    {
        let key = self.keys()[id as int];
        assert(self.keys().contains(key));
        let i = self.keys().index_of(key);
        assert(0 <= i < self.keys().len() && self.keys()[i] == key);
        assert(i == id);
    }

    /// The identifier of an IRI.
    pub fn lookup_iri(&self, iri: &str) -> (r: Option<u32>)
        requires
            self.wf(),
        ensures
            r == self.id_of(term_key(iri@, TermKind::Iri)),
    {
        self.lookup_term(iri, &TermType::Iri)
    }

    /// The lexical value of an identifier.
    pub fn resolve(&self, id: u32) -> (r: Option<String>)
        requires
            self.wf(),
        ensures
            match r {
                Some(v) => id < self.keys().len() && v@ == key_value(self.keys()[id as int]),
                None => id >= self.keys().len(),
            },
    {
        match self.raw_key(id) {
            Some(key) => Some(decode_value(key)),
            None => None,
        }
    }

    /// The type of an identifier.
    pub fn resolve_type(&self, id: u32) -> (r: Option<TermType>)
        requires
            self.wf(),
        ensures
            match r {
                Some(t) => id < self.keys().len() && t@ == key_kind(self.keys()[id as int]),
                None => id >= self.keys().len(),
            },
    {
        match self.raw_key(id) {
            Some(key) => Some(decode_type(key)),
            None => None,
        }
    }

    /// The keys that came after the base.
    pub closed spec fn own_keys(&self) -> Seq<Seq<char>> {
        interned(self.interner)
    }

    /// A rough size in bytes: the keys that came after the base, and eight for
    /// each of them.
    pub fn approx_bytes(&self) -> (n: usize)
        requires
            self.wf(),
        ensures
            n == clamped(keys_blob(self.own_keys()).len() + 8 * self.own_keys().len()),
    {
        let count: usize = interner_len(&self.interner);
        let ghost own = self.own_keys();
        let mut n: usize = 0;
        let mut i: usize = 0;
        assert(own.len() <= self.keys().len());
        assert(keys_blob(own.take(0)).len() == 0);
        while i < count
            invariant
                self.wf(),
                own == self.own_keys(),
                count == own.len(),
                own.len() <= u32::MAX,
                i <= count,
                n == clamped(keys_blob(own.take(i as int)).len()),
            decreases count - i,
        {
            proof {
                assert(own.take(i + 1).drop_last() =~= own.take(i as int));
                assert(own.take(i + 1).last() == own[i as int]);
            }
            match interner_resolve(&self.interner, i as u32) {
                Some(key) => {
                    let bytes: &[u8] = key.as_bytes();
                    n = n.saturating_add(bytes.len());
                },
                None => {},
            }
            i += 1;
        }
        assert(own.take(i as int) =~= own);
        assert(count == clamped(own.len()));
        n.saturating_add(times(count, 8))
    }

    pub fn len(&self) -> (n: usize)
        requires
            self.wf(),
        ensures
            n == self.keys().len(),
            n <= u32::MAX,
    {
        self.base_n() + interner_len(&self.interner)
    }

    pub fn is_empty(&self) -> (r: bool)
        requires
            self.wf(),
        ensures
            r == (self.keys().len() == 0),
    {
        self.len() == 0
    }
}

impl Clone for Dictionary {
    /// The same identifiers; the base is shared.
    fn clone(&self) -> (r: Dictionary)
        ensures
            r.keys() == self.keys(),
            self.wf() ==> r.wf(),
    {
        let mapped: Option<MappedDict> = match &self.mapped {
            Some(m) => Some(
                MappedDict {
                    map: m.map.clone(),
                    off: m.off,
                    n: m.n,
                    keys_off: m.keys_off,
                    sorted_off: m.sorted_off,
                    keys: Ghost(m.keys@),
                },
            ),
            None => None,
        };
        Dictionary { mapped, interner: interner_clone(&self.interner) }
    }
}

/// The identifier of a key.
pub open spec fn key_id(keys: Seq<Seq<char>>, key: Seq<char>) -> Option<u32> {
    if keys.contains(key) {
        Some(keys.index_of(key) as u32)
    } else {
        None
    }
}

/// The keys with one more, unless it is there.
pub open spec fn with_key(keys: Seq<Seq<char>>, key: Seq<char>) -> Seq<Seq<char>> {
    if keys.contains(key) {
        keys
    } else {
        keys.push(key)
    }
}

/// Two terms are added one after the other: they have the same identifier exactly if
/// they are the same term, which is if their values and, canonically, their types
/// agree. A known term changes nothing, a new one gets the next identifier, and an
/// identifier stands for its term from then on.
pub proof fn law_one_identifier_per_term(
    keys: Seq<Seq<char>>,
    v1: Seq<char>,
    t1: TermKind,
    v2: Seq<char>,
    t2: TermKind,
)
    requires
        keys.no_duplicates(),
        with_key(with_key(keys, term_key(v1, t1)), term_key(v2, t2)).len() <= u32::MAX,
        encodable(v1, t1),
        encodable(v2, t2),
    ensures
        ({
            let k1 = with_key(keys, term_key(v1, t1));
            let k2 = with_key(k1, term_key(v2, t2));
            let a = key_id(k1, term_key(v1, t1));
            let b = key_id(k2, term_key(v2, t2));
            &&& a is Some && b is Some
            &&& a == b <==> v1 == v2 && canonical(t1) == canonical(t2)
            &&& key_id(keys, term_key(v1, t1)) is Some ==> k1 == keys && a == key_id(
                keys,
                term_key(v1, t1),
            )
            &&& key_id(keys, term_key(v1, t1)) is None ==> k1.len() == keys.len() + 1 && a->0 == keys.len()
            &&& key_id(k2, term_key(v1, t1)) == a
            &&& key_value(k2[a->0 as int]) == v1 && key_kind(k2[a->0 as int]) == canonical(t1)
            &&& key_value(k2[b->0 as int]) == v2 && key_kind(k2[b->0 as int]) == canonical(t2)
        }),
{
    let x = term_key(v1, t1);
    let y = term_key(v2, t2);
    let k1 = with_key(keys, x);
    let k2 = with_key(k1, y);
    law_key_round_trip(v1, t1);
    law_key_round_trip(v2, t2);
    law_identifiers_stay(keys, x, y);
    lemma_with_key(keys, x);
    law_identifiers_stay(k1, y, x);
    lemma_with_key(k1, y);
    let i = k2.index_of(x);
    let j = k2.index_of(y);
    assert(k2.contains(x) && k2.contains(y));
    assert(k2[i] == x && k2[j] == y);
    if v1 == v2 && canonical(t1) == canonical(t2) {
        lemma_canonical_key(v1, t1);
        lemma_canonical_key(v2, t2);
    }
}

/// The keys stay without repetition, and a new key comes last.
pub proof fn lemma_with_key(keys: Seq<Seq<char>>, key: Seq<char>)
    requires
        keys.no_duplicates(),
    ensures
        with_key(keys, key).no_duplicates(),
        with_key(keys, key).contains(key),
        !keys.contains(key) ==> with_key(keys, key).index_of(key) == keys.len(),
{
    let out = with_key(keys, key);
    if !keys.contains(key) {
        assert(out[keys.len() as int] == key);
        let j = out.index_of(key);
        assert(out[j] == key);
        if j < keys.len() {
            assert(keys[j] == key);
        }
    }
}

/// The canonical type has the same key.
proof fn lemma_canonical_key(value: Seq<char>, typ: TermKind)
    ensures
        term_key(value, canonical(typ)) == term_key(value, typ),
{
}

/// A term that is added can be found, and every other term keeps its identifier.
pub proof fn law_identifiers_stay(keys: Seq<Seq<char>>, key: Seq<char>, other: Seq<char>)
    requires
        keys.no_duplicates(),
    ensures
        key_id(with_key(keys, key), key) is Some,
        keys.contains(other) ==> key_id(with_key(keys, key), other) == key_id(keys, other),
        other != key && !keys.contains(other) ==> key_id(with_key(keys, key), other) is None,
        with_key(with_key(keys, key), key) == with_key(keys, key),
{
    let out = with_key(keys, key);
    if !keys.contains(key) {
        assert(out[keys.len() as int] == key);
        assert(out.contains(key));
        if keys.contains(other) {
            let i = keys.index_of(other);
            assert(out[i] == other);
            let j = out.index_of(other);
            assert(out[j] == other);
            assert(j < keys.len());
            assert(keys[j] == other);
            assert(i == j);
        }
        if other != key && out.contains(other) {
            let j = choose|j: int| 0 <= j < out.len() && out[j] == other;
            assert(keys[j] == other);
        }
    }
}

// --- Writing and reading the stored form ------------------------------------

/// Positions in the order of their keys.
pub open spec fn key_order(keys: Seq<Seq<char>>, ids: Seq<u32>) -> bool {
    &&& ids.len() == keys.len()
    &&& forall|i: int| 0 <= i < ids.len() ==> #[trigger] ids[i] < keys.len()
    &&& forall|i: int, j: int|
        #![trigger ids[i], ids[j]]
        0 <= i < j < ids.len() ==> side(
            encode_utf8(keys[ids[i] as int]),
            encode_utf8(keys[ids[j] as int]),
        ) == Side::Before
}

/// Where each key begins, and where the last one ends.
pub open spec fn key_starts(keys: Seq<Seq<char>>) -> Seq<u64> {
    Seq::new(keys.len() + 1, |i: int| key_start(keys, i) as u64)
}

/// The stored form of a dictionary that begins at position `at`.
pub open spec fn dict_image(at: nat, keys: Seq<Seq<char>>, ids: Seq<u32>) -> Seq<u8> {
    let head = vstd::bytes::spec_u32_to_le_bytes(keys.len() as u32) + crate::bytes::zeros(
        crate::bytes::padding(at + 4, 8),
    ) + crate::bytes::u64s_bytes(key_starts(keys)) + keys_blob(keys);
    head + crate::bytes::zeros(crate::bytes::padding(at + head.len(), 4)) + crate::bytes::u32s_bytes(ids)
}

/// The stored form can be read where it was written.
pub proof fn lemma_dict_image(front: Seq<u8>, keys: Seq<Seq<char>>, ids: Seq<u32>)
    requires
        front.len() % 8 == 0,
        keys.len() <= u32::MAX,
        keys_blob(keys).len() <= u64::MAX,
        key_order(keys, ids),
    ensures
        dict_at(front + dict_image(front.len(), keys, ids), front.len(), keys),
{
    reveal(dict_at);
    let off = front.len();
    let n = keys.len();
    let b = front + dict_image(off, keys, ids);
    let num = vstd::bytes::spec_u32_to_le_bytes(n as u32);
    let z1 = crate::bytes::zeros(crate::bytes::padding(off + 4, 8));
    let starts = key_starts(keys);
    let sb = crate::bytes::u64s_bytes(starts);
    let blob = keys_blob(keys);
    let head = num + z1 + sb + blob;
    let z2 = crate::bytes::zeros(crate::bytes::padding(off + head.len(), 4));
    let ib = crate::bytes::u32s_bytes(ids);
    crate::bytes::lemma_le32(front, n as u32, z1 + sb + blob + z2 + ib);
    assert(b =~= front + num + (z1 + sb + blob + z2 + ib));
    crate::bytes::lemma_u64s_bytes(starts);
    crate::bytes::lemma_u32s_bytes(ids);
    assert(z1.len() == 4);
    let k = keys_at(off, n);
    assert(head.len() == k - off + blob.len());
    let s = ids_at(off, n, blob.len());
    assert(off + head.len() + z2.len() == s);
    assert(keys.take(n as int) =~= keys);
    assert forall|i: int| 0 <= i <= n implies #[trigger] offset_at(b, off, i) == key_start(keys, i) by {
        assert(b.subrange(off + 8 + 8 * i, off + 8 + 8 * i + 8) =~= sb.subrange(8 * i, 8 * i + 8));
        assert(le64(sb, 8 * i) == starts[i]);
        if i < n {
            lemma_key_start(keys, i);
        }
    }
    assert(b.subrange(k as int, (k + blob.len()) as int) =~= blob);
    assert forall|i: int| 0 <= i < n implies #[trigger] id_at(b, s, i) == ids[i] by {
        assert(b.subrange(s + 4 * i, s + 4 * i + 4) =~= ib.subrange(4 * i, 4 * i + 4));
        assert(le32(ib, 4 * i) == ids[i]);
    }
    assert(b.len() == s + 4 * n);
}

/// The order of the keys, on their positions.
struct KeyRank<'a> {
    dict: &'a Dictionary,
}

impl<'a> Rank<u32> for KeyRank<'a> {
    closed spec fn leq(&self, a: u32, b: u32) -> bool {
        side(encode_utf8(self.dict.keys()[a as int]), encode_utf8(self.dict.keys()[b as int]))
            != Side::After
    }

    closed spec fn covers(&self, a: u32) -> bool {
        self.dict.wf() && a < self.dict.keys().len()
    }

    proof fn total(&self, a: u32, b: u32) {
        crate::bytes::lemma_side(
            encode_utf8(self.dict.keys()[a as int]),
            encode_utf8(self.dict.keys()[b as int]),
        );
    }

    proof fn transitive(&self, a: u32, b: u32, c: u32) {
        let x = encode_utf8(self.dict.keys()[a as int]);
        let y = encode_utf8(self.dict.keys()[b as int]);
        let z = encode_utf8(self.dict.keys()[c as int]);
        crate::bytes::lemma_side(x, y);
        crate::bytes::lemma_side(y, z);
        crate::bytes::lemma_side(x, z);
        if x != y && y != z {
            crate::bytes::lemma_side_transitive(x, y, z);
        }
    }

    fn le(&self, a: &u32, b: &u32) -> (r: bool) {
        match (self.dict.raw_key(*a), self.dict.raw_key(*b)) {
            (Some(x), Some(y)) => match compare_bytes(x.as_bytes(), y.as_bytes()) {
                Side::After => false,
                _ => true,
            },
            _ => false,
        }
    }
}

/// What is wrong with the stored form of a dictionary.
#[derive(Debug, Clone, Copy, PartialEq, Eq, Structural)]
pub enum DictError {
    /// The bytes end before a number that must stand at this offset.
    Truncated(usize),
    /// A position lies beyond the largest offset.
    Overflow,
    /// The section does not fit into the bytes.
    OutOfBounds,
    /// The keys are not UTF-8.
    NotUtf8,
    /// The tables do not fit the keys.
    Inconsistent,
}

/// The first fault that reading a section meets; `Inconsistent` if there is none
/// before the tables are held against the keys.
pub open spec fn dict_fault(b: Seq<u8>, off: nat) -> DictError {
    let n = le32(b, off as int) as nat;
    let last = off + 8 + 8 * n;
    let blob = le64(b, last as int) as nat;
    let k = keys_at(off, n);
    if off + 4 > b.len() {
        DictError::Truncated(off as usize)
    } else if k > usize::MAX {
        DictError::Overflow
    } else if last + 8 > b.len() {
        DictError::Truncated(last as usize)
    } else if ids_at(off, n, blob) + 4 * n > usize::MAX {
        DictError::Overflow
    } else if ids_at(off, n, blob) + 4 * n > b.len() {
        DictError::OutOfBounds
    } else if !vstd::utf8::valid_utf8(b.subrange(k as int, (k + blob) as int)) {
        DictError::NotUtf8
    } else {
        DictError::Inconsistent
    }
}

impl Dictionary {
    /// Appends the stored form of the dictionary.
    pub fn serialize_into(&self, buf: &mut Vec<u8>)
        requires
            self.wf(),
        ensures
            exists|ids: Seq<u32>| #[trigger]
                key_order(self.keys(), ids) && final(buf)@ == old(buf)@ + dict_image(
                    old(buf)@.len(),
                    self.keys(),
                    ids,
                ),
            old(buf)@.len() % 8 == 0 ==> dict_at(final(buf)@, old(buf)@.len(), self.keys()),
    {
        let ghost front = buf@;
        let ghost keys = self.keys();
        let n: usize = self.len();
        let mut blob: Vec<u8> = Vec::new();
        let mut starts: Vec<u64> = Vec::new();
        let mut order: Vec<u32> = Vec::new();
        starts.push(0);
        let mut id: usize = 0;
        assert(keys.take(0) =~= Seq::<Seq<char>>::empty());
        while id < n
            invariant
                self.wf(),
                keys == self.keys(),
                n == keys.len(),
                n <= u32::MAX,
                id <= n,
                blob@ == keys_blob(keys.take(id as int)),
                starts@.len() == id + 1,
                forall|i: int| 0 <= i <= id ==> #[trigger] starts@[i] == key_start(keys, i),
                order@.len() == id,
                forall|i: int| 0 <= i < id ==> #[trigger] order@[i] == i,
            decreases n - id,
        {
            match self.raw_key(id as u32) {
                Some(k) => {
                    let mut bytes: Vec<u8> = vstd::slice::slice_to_vec(k.as_bytes());
                    proof {
                        assert(keys.take(id + 1).drop_last() =~= keys.take(id as int));
                    }
                    blob.append(&mut bytes);
                },
                None => {},
            }
            order.push(id as u32);
            id += 1;
            starts.push(blob.len() as u64);
        }
        proof {
            assert(keys.take(n as int) =~= keys);
            assert(starts@ =~= key_starts(keys));
        }
        let rank: KeyRank<'_> = KeyRank { dict: self };
        let ids: Vec<u32> = merge_sort(&rank, order.as_slice());
        proof {
            crate::order::lemma_same_members(ids@, order@);
            assert forall|i: int| 0 <= i < ids@.len() implies #[trigger] ids@[i] < keys.len() by {
                assert(rank.covers(ids@[i]));
            }
            order@.lemma_multiset_has_no_duplicates();
            assert(order@.no_duplicates());
            lemma_no_dup_of_multiset(ids@, order@);
            assert forall|i: int, j: int|
                #![trigger ids@[i], ids@[j]]
                0 <= i < j < ids@.len() implies side(
                encode_utf8(keys[ids@[i] as int]),
                encode_utf8(keys[ids@[j] as int]),
            ) == Side::Before by {
                let x = keys[ids@[i] as int];
                let y = keys[ids@[j] as int];
                assert(rank.leq(ids@[i], ids@[j]));
                assert(ids@[i] != ids@[j]);
                assert(x != y);
                crate::bytes::lemma_side(encode_utf8(x), encode_utf8(y));
                if encode_utf8(x) == encode_utf8(y) {
                    crate::bytes::lemma_utf8_injective(x, y);
                }
            }
            assert(key_order(keys, ids@));
        }
        let count: usize = blob.len();
        push_u32(buf, n as u32);
        pad_to(buf, 8);
        push_u64s(buf, starts.as_slice());
        buf.append(&mut blob);
        pad_to(buf, 4);
        push_u32s(buf, ids.as_slice());
        proof {
            assert(buf@ =~= front + dict_image(front.len(), keys, ids@));
            if front.len() % 8 == 0 {
                lemma_dict_image(front, keys, ids@);
            }
        }
    }
}

proof fn lemma_no_dup_of_multiset(a: Seq<u32>, b: Seq<u32>)
    requires
        a.to_multiset() == b.to_multiset(),
        b.no_duplicates(),
    ensures
        a.no_duplicates(),
{
    b.lemma_multiset_has_no_duplicates();
    assert(forall|x: u32| #[trigger] b.to_multiset().contains(x) ==> b.to_multiset().count(x) == 1);
    a.lemma_multiset_has_no_duplicates_conv();
}

/// Entry `i` of the table of key starts delimits the bytes of `key`.
spec fn entry_ok(b: Seq<u8>, off: nat, k: nat, blob: nat, i: int, key: Seq<char>) -> bool {
    &&& offset_at(b, off, i) <= offset_at(b, off, i + 1) <= blob
    &&& b.subrange(k + offset_at(b, off, i), k + offset_at(b, off, i + 1)) == encode_utf8(key)
}

/// What a readable section says about its own layout.
proof fn lemma_dict_at_layout(b: Seq<u8>, off: nat, keys: Seq<Seq<char>>)
    requires
        dict_at(b, off, keys),
    ensures
        off + 4 <= b.len(),
        le32(b, off as int) == keys.len(),
        off + 8 + 8 * keys.len() + 8 <= b.len(),
        offset_at(b, off, keys.len() as int) == keys_blob(keys).len(),
        ids_at(off, keys.len(), keys_blob(keys).len()) + 4 * keys.len() <= b.len(),
        vstd::utf8::valid_utf8(
            b.subrange(
                keys_at(off, keys.len()) as int,
                (keys_at(off, keys.len()) + keys_blob(keys).len()) as int,
            ),
        ),
        forall|i: int|
            0 <= i < keys.len() ==> #[trigger] entry_ok(
                b,
                off,
                keys_at(off, keys.len()),
                keys_blob(keys).len(),
                i,
                keys[i],
            ),
        offset_at(b, off, 0) == 0,
{
    reveal(dict_at);
    let n = keys.len();
    assert(keys.take(n as int) =~= keys);
    assert(keys.take(0) =~= Seq::<Seq<char>>::empty());
    assert(offset_at(b, off, n as int) == key_start(keys, n as int));
    assert(offset_at(b, off, 0) == key_start(keys, 0));
    let blob = keys_blob(keys);
    let k = keys_at(off, n) as int;
    lemma_blob_utf8(keys);
    assert forall|i: int| 0 <= i < n implies #[trigger] entry_ok(
        b,
        off,
        keys_at(off, n),
        blob.len(),
        i,
        keys[i],
    ) by {
        lemma_key_start(keys, i);
        assert(offset_at(b, off, i) == key_start(keys, i));
        assert(offset_at(b, off, i + 1) == key_start(keys, i + 1));
        let lo = key_start(keys, i) as int;
        let hi = key_start(keys, i + 1) as int;
        assert(b.subrange(k + lo, k + hi) =~= blob.subrange(lo, hi)) by {
            assert forall|j: int| 0 <= j < hi - lo implies #[trigger] b.subrange(k + lo, k + hi)[j]
                == blob.subrange(lo, hi)[j] by {
                assert(b.subrange(k, k + blob.len())[lo + j] == blob[lo + j]);
            }
        }
    }
}

/// The bytes of the keys are the bytes of their texts put together.
proof fn lemma_blob_utf8(keys: Seq<Seq<char>>)
    ensures
        exists|t: Seq<char>| keys_blob(keys) == encode_utf8(t),
        vstd::utf8::valid_utf8(keys_blob(keys)),
    decreases keys.len(),
{
    if keys.len() == 0 {
        assert(encode_utf8(Seq::<char>::empty()) =~= Seq::<u8>::empty());
        assert(keys_blob(keys) == encode_utf8(Seq::<char>::empty()));
    } else {
        lemma_blob_utf8(keys.drop_last());
        let t = choose|t: Seq<char>| keys_blob(keys.drop_last()) == encode_utf8(t);
        lemma_encode_concat(t, keys.last());
        assert(keys_blob(keys) == encode_utf8(t + keys.last()));
    }
    let t = choose|t: Seq<char>| keys_blob(keys) == encode_utf8(t);
    vstd::utf8::encode_utf8_valid_utf8(t);
}

proof fn lemma_encode_concat(a: Seq<char>, b: Seq<char>)
    ensures
        encode_utf8(a + b) == encode_utf8(a) + encode_utf8(b),
    decreases a.len(),
{
    if a.len() == 0 {
        assert(a + b =~= b);
        assert(encode_utf8(a) =~= Seq::<u8>::empty());
        assert(encode_utf8(a) + encode_utf8(b) =~= encode_utf8(b));
    } else {
        lemma_encode_concat(a.drop_first(), b);
        assert((a + b).drop_first() =~= a.drop_first() + b);
        assert(encode_utf8(a + b) =~= encode_utf8(a) + encode_utf8(b));
    }
}

/// Tables and bytes that pass every test hold their keys.
proof fn lemma_dict_at_intro(b: Seq<u8>, off: nat, keys: Seq<Seq<char>>, blob: nat)
    requires
        keys.len() <= u32::MAX,
        le32(b, off as int) == keys.len(),
        offset_at(b, off, 0) == 0,
        offset_at(b, off, keys.len() as int) == blob,
        ids_at(off, keys.len(), blob) + 4 * keys.len() <= b.len(),
        forall|i: int|
            0 <= i < keys.len() ==> #[trigger] entry_ok(
                b,
                off,
                keys_at(off, keys.len()),
                blob,
                i,
                keys[i],
            ),
        forall|i: int|
            0 <= i < keys.len() ==> #[trigger] id_at(b, ids_at(off, keys.len(), blob), i) < keys.len(),
        forall|i: int, j: int|
            #![trigger id_at(b, ids_at(off, keys.len(), blob), i), id_at(b, ids_at(off, keys.len(), blob), j)]
            0 <= i < j < keys.len() ==> side(
                encode_utf8(keys[id_at(b, ids_at(off, keys.len(), blob), i) as int]),
                encode_utf8(keys[id_at(b, ids_at(off, keys.len(), blob), j) as int]),
            ) == Side::Before,
    ensures
        dict_at(b, off, keys),
{
    let n = keys.len() as int;
    lemma_dict_prefix(b, off, keys, blob, n);
    assert(keys.take(n) =~= keys);
    reveal(dict_at);
    assert forall|i: int| 0 <= i <= n implies #[trigger] offset_at(b, off, i) == key_start(keys, i) by {
        lemma_dict_prefix(b, off, keys, blob, i);
    }
}

proof fn lemma_dict_prefix(b: Seq<u8>, off: nat, keys: Seq<Seq<char>>, blob: nat, m: int)
    requires
        0 <= m <= keys.len(),
        offset_at(b, off, 0) == 0,
        keys_at(off, keys.len()) + blob <= b.len(),
        forall|i: int|
            0 <= i < keys.len() ==> #[trigger] entry_ok(
                b,
                off,
                keys_at(off, keys.len()),
                blob,
                i,
                keys[i],
            ),
    ensures
        offset_at(b, off, m) == key_start(keys, m),
        keys_blob(keys.take(m)) == b.subrange(
            keys_at(off, keys.len()) as int,
            keys_at(off, keys.len()) + offset_at(b, off, m),
        ),
    decreases m,
{
    let k = keys_at(off, keys.len()) as int;
    if m == 0 {
        assert(keys.take(0) =~= Seq::<Seq<char>>::empty());
        assert(b.subrange(k, k + 0) =~= Seq::<u8>::empty());
    } else {
        lemma_dict_prefix(b, off, keys, blob, m - 1);
        assert(entry_ok(b, off, keys_at(off, keys.len()), blob, m - 1, keys[m - 1]));
        assert(keys.take(m).drop_last() =~= keys.take(m - 1));
        assert(b.subrange(k, k + offset_at(b, off, m)) =~= b.subrange(k, k + offset_at(b, off, m - 1))
            + b.subrange(k + offset_at(b, off, m - 1), k + offset_at(b, off, m)));
    }
}

impl Dictionary {
    /// A dictionary over the section that begins at `dict_off`. Nothing is
    /// copied; every table is held against the keys.
    pub fn from_mapped(map: Arc<Vec<u8>>, dict_off: usize) -> (r: Result<Dictionary, DictError>)
        ensures
            match r {
                Ok(d) => d.wf() && dict_at(map@, dict_off as nat, d.keys()),
                Err(e) => e == dict_fault(map@, dict_off as nat) && forall|keys: Seq<Seq<char>>|
                    !dict_at(map@, dict_off as nat, keys),
            },
    {
        let ghost b0 = map@;
        let ghost off = dict_off as nat;
        proof {
            assert forall|keys: Seq<Seq<char>>| #[trigger] dict_at(b0, off, keys) implies ({
                &&& off + 4 <= b0.len()
                &&& le32(b0, off as int) == keys.len()
                &&& off + 8 + 8 * keys.len() + 8 <= b0.len()
                &&& offset_at(b0, off, keys.len() as int) == keys_blob(keys).len()
                &&& ids_at(off, keys.len(), keys_blob(keys).len()) + 4 * keys.len() <= b0.len()
            }) by {
                lemma_dict_at_layout(b0, off, keys);
            }
        }
        let bytes: &[u8] = (&*map).as_slice();
        let total: usize = bytes.len();
        if total < 4 || dict_off > total - 4 {
            return Err(DictError::Truncated(dict_off));
        }
        let n: usize = read_u32(bytes, dict_off) as usize;
        let k: u128 = dict_off as u128 + 8 + 8 * (n as u128 + 1);
        if k > usize::MAX as u128 {
            return Err(DictError::Overflow);
        }
        let keys_off: usize = k as usize;
        if keys_off > total {
            return Err(DictError::Truncated(keys_off - 8));
        }
        let blob: u64 = read_u64(bytes, keys_off - 8);
        let keys_end: u128 = keys_off as u128 + blob as u128;
        let sorted: u128 = if keys_end % 4 == 0 {
            keys_end
        } else {
            keys_end + (4 - keys_end % 4)
        };
        assert(sorted == ids_at(off, n as nat, blob as nat));
        let end: u128 = sorted + 4 * n as u128;
        if end > usize::MAX as u128 {
            return Err(DictError::Overflow);
        }
        if end > total as u128 {
            return Err(DictError::OutOfBounds);
        }
        let keys_len: usize = blob as usize;
        let sorted_off: usize = sorted as usize;
        if utf8_text(slice_subrange(bytes, keys_off, keys_off + keys_len)).is_none() {
            proof {
                assert forall|keys: Seq<Seq<char>>| !dict_at(b0, off, keys) by {
                    if dict_at(b0, off, keys) {
                        lemma_dict_at_layout(b0, off, keys);
                    }
                }
            }
            return Err(DictError::NotUtf8);
        }
        proof {
            assert(dict_fault(b0, off) == DictError::Inconsistent) by {
                let t = b0.subrange(keys_off as int, keys_off + keys_len);
                if !vstd::utf8::valid_utf8(t) {
                    let x = choose|x: Seq<char>| encode_utf8(x) == t;
                    vstd::utf8::encode_utf8_valid_utf8(x);
                }
            }
        }
        let ghost mut keys: Seq<Seq<char>> = Seq::empty();
        if read_u64(bytes, dict_off + 8) != 0 {
            proof {
                assert forall|ks: Seq<Seq<char>>| !dict_at(b0, off, ks) by {
                    if dict_at(b0, off, ks) {
                        lemma_dict_at_layout(b0, off, ks);
                    }
                }
            }
            return Err(DictError::Inconsistent);
        }
        let mut i: usize = 0;
        while i < n
            invariant
                b0 == bytes@,
                b0 == map@,
                total == b0.len(),
                off == dict_off,
                n <= u32::MAX,
                i <= n,
                keys.len() == i,
                keys_off == keys_at(off, n as nat),
                keys_off + keys_len <= total,
                n == le32(b0, off as int),
                keys_len == offset_at(b0, off, n as int),
                dict_fault(b0, off) == DictError::Inconsistent,
                forall|j: int|
                    0 <= j < i ==> #[trigger] entry_ok(
                        b0,
                        off,
                        keys_off as nat,
                        keys_len as nat,
                        j,
                        keys[j],
                    ),
            decreases n - i,
        {
            let lo: u64 = read_u64(bytes, dict_off + 8 + 8 * i);
            let hi: u64 = read_u64(bytes, dict_off + 8 + 8 * (i + 1));
            assert(lo == offset_at(b0, off, i as int));
            assert(hi == offset_at(b0, off, i + 1));
            let text: Option<&str> = if lo <= hi && hi <= keys_len as u64 {
                utf8_text(slice_subrange(bytes, keys_off + lo as usize, keys_off + hi as usize))
            } else {
                None
            };
            match text {
                Some(t) => {
                    proof {
                        let before = keys;
                        keys = keys.push(t@);
                        assert forall|j: int| 0 <= j < i + 1 implies #[trigger] entry_ok(
                            b0,
                            off,
                            keys_off as nat,
                            keys_len as nat,
                            j,
                            keys[j],
                        ) by {
                            if j < i {
                                assert(entry_ok(
                                    b0,
                                    off,
                                    keys_off as nat,
                                    keys_len as nat,
                                    j,
                                    before[j],
                                ));
                            }
                        }
                    }
                },
                None => {
                    proof {
                        assert forall|ks: Seq<Seq<char>>| !dict_at(b0, off, ks) by {
                            if dict_at(b0, off, ks) {
                                lemma_dict_at_layout(b0, off, ks);
                                assert(entry_ok(
                                    b0,
                                    off,
                                    keys_off as nat,
                                    keys_len as nat,
                                    i as int,
                                    ks[i as int],
                                ));
                                vstd::utf8::encode_utf8_valid_utf8(ks[i as int]);
                            }
                        }
                    }
                    return Err(DictError::Inconsistent);
                },
            }
            i += 1;
        }
        let ghost s = sorted_off as nat;
        let ghost ks0 = keys;
        proof {
            lemma_dict_prefix(b0, off, ks0, keys_len as nat, n as int);
            assert(ks0.take(n as int) =~= ks0);
            // Any list of keys that the section holds is the one just read.
            assert forall|ks: Seq<Seq<char>>| #[trigger] dict_at(b0, off, ks) implies ks == ks0 by {
                lemma_dict_at_layout(b0, off, ks);
                assert forall|j: int| 0 <= j < n implies ks[j] == ks0[j] by {
                    assert(entry_ok(b0, off, keys_off as nat, keys_len as nat, j, ks[j]));
                    assert(entry_ok(b0, off, keys_off as nat, keys_len as nat, j, ks0[j]));
                    crate::bytes::lemma_utf8_injective(ks[j], ks0[j]);
                }
                assert(ks =~= ks0);
            }
        }
        let mut prev: usize = 0;
        i = 0;
        while i < n
            invariant
                b0 == bytes@,
                b0 == map@,
                total == b0.len(),
                off == dict_off,
                n <= u32::MAX,
                i <= n,
                ks0.len() == n,
                s == sorted_off,
                s == ids_at(off, n as nat, keys_len as nat),
                s + 4 * n <= total,
                keys_off == keys_at(off, n as nat),
                keys_off + keys_len <= total,
                n == le32(b0, off as int),
                keys_len == offset_at(b0, off, n as int),
                dict_fault(b0, off) == DictError::Inconsistent,
                forall|ks: Seq<Seq<char>>| #[trigger] dict_at(b0, off, ks) ==> ks == ks0,
                forall|j: int|
                    0 <= j < n ==> #[trigger] entry_ok(
                        b0,
                        off,
                        keys_off as nat,
                        keys_len as nat,
                        j,
                        ks0[j],
                    ),
                keys_blob(ks0).len() == keys_len,
                i > 0 ==> prev == id_at(b0, s, i - 1),
                i > 0 ==> prev < n,
                forall|j: int| 0 <= j < i ==> #[trigger] id_at(b0, s, j) < n,
                forall|a: int, c: int|
                    #![trigger id_at(b0, s, a), id_at(b0, s, c)]
                    0 <= a < c < i ==> side(
                        encode_utf8(ks0[id_at(b0, s, a) as int]),
                        encode_utf8(ks0[id_at(b0, s, c) as int]),
                    ) == Side::Before,
            decreases n - i,
        {
            let id: usize = read_u32(bytes, sorted_off + 4 * i) as usize;
            assert(id == id_at(b0, s, i as int));
            let ok: bool = id < n && (i == 0 || {
                proof {
                    assert(entry_ok(b0, off, keys_off as nat, keys_len as nat, prev as int, ks0[prev as int]));
                    assert(entry_ok(b0, off, keys_off as nat, keys_len as nat, id as int, ks0[id as int]));
                }
                let a: &[u8] = key_slice(bytes, dict_off, keys_off, prev);
                let c: &[u8] = key_slice(bytes, dict_off, keys_off, id);
                match compare_bytes(a, c) {
                    Side::Before => true,
                    _ => false,
                }
            });
            if !ok {
                proof {
                    assert forall|ks: Seq<Seq<char>>| !dict_at(b0, off, ks) by {
                        if dict_at(b0, off, ks) {
                            reveal(dict_at);
                            assert(id_at(b0, s, i as int) < n);
                            if i > 0 {
                                assert(id_at(b0, s, i - 1) == prev);
                            }
                        }
                    }
                }
                return Err(DictError::Inconsistent);
            }
            proof {
                assert forall|a: int| 0 <= a < i implies side(
                    encode_utf8(ks0[#[trigger] id_at(b0, s, a) as int]),
                    encode_utf8(ks0[id as int]),
                ) == Side::Before by {
                    if a < i - 1 {
                        assert(id_at(b0, s, i - 1) == prev);
                        crate::bytes::lemma_side_transitive(
                            encode_utf8(ks0[id_at(b0, s, a) as int]),
                            encode_utf8(ks0[prev as int]),
                            encode_utf8(ks0[id as int]),
                        );
                    }
                }
            }
            prev = id;
            i += 1;
        }
        proof {
            lemma_dict_at_intro(b0, off, ks0, keys_len as nat);
            lemma_dict_at_ids(b0, off, ks0);
        }
        let r: Dictionary = Dictionary {
            mapped: Some(
                MappedDict { map, off: dict_off, n, keys_off, sorted_off, keys: Ghost(ks0) },
            ),
            interner: interner_new(),
        };
        assert(r.keys() =~= ks0);
        Ok(r)
    }
}

/// The bytes of key `id`, read through the table of key starts.
fn key_slice(bytes: &[u8], dict_off: usize, keys_off: usize, id: usize) -> (r: &[u8])
    requires
        id <= u32::MAX,
        dict_off + 8 + 8 * (id + 1) + 8 <= bytes@.len(),
        offset_at(bytes@, dict_off as nat, id as int) <= offset_at(bytes@, dict_off as nat, id + 1),
        keys_off + offset_at(bytes@, dict_off as nat, id + 1) <= bytes@.len(),
    ensures
        r@ == bytes@.subrange(
            keys_off + offset_at(bytes@, dict_off as nat, id as int),
            keys_off + offset_at(bytes@, dict_off as nat, id + 1),
        ),
{
    let total: usize = bytes.len();
    let lo: usize = read_u64(bytes, dict_off + 8 + 8 * id) as usize;
    let hi: usize = read_u64(bytes, dict_off + 8 + 8 * (id + 1)) as usize;
    slice_subrange(bytes, keys_off + lo, keys_off + hi)
}

} // verus!
