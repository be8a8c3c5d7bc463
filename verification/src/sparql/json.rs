//! Results as JSON text.

use crate::hypertrie::dictionary::{key_kind, key_value, Dictionary, TermKind, TermType};
use crate::hypertrie::NULL_ID;
use crate::sparql::algebra::texts;
use crate::sparql::tables::{Solutions, Table};
use crate::text::{chars_of, code_of, decimal, decimal_text, owned};
use vstd::prelude::*;

verus! {

// --- Strings ---------------------------------------------------------------------------

/// A hexadecimal digit.
pub open spec fn hex_char(d: int) -> char {
    if d < 10 {
        ('0' as int + d) as char
    } else {
        ('a' as int + (d - 10)) as char
    }
}

/// A character inside a JSON string.
pub open spec fn escaped(c: char) -> Seq<char> {
    if c == '"' {
        seq!['\\', '"']
    } else if c == '\\' {
        seq!['\\', '\\']
    } else if c == '\n' {
        seq!['\\', 'n']
    } else if c == '\r' {
        seq!['\\', 'r']
    } else if c == '\t' {
        seq!['\\', 't']
    } else if (c as int) < 0x20 {
        seq!['\\', 'u', '0', '0', hex_char((c as int) / 16), hex_char((c as int) % 16)]
    } else {
        seq![c]
    }
}

/// The characters of a text inside a JSON string.
pub open spec fn escaped_text(s: Seq<char>) -> Seq<char>
    decreases s.len(),
{
    if s.len() == 0 {
        Seq::empty()
    } else {
        escaped_text(s.drop_last()) + escaped(s.last())
    }
}

/// A text as a JSON string.
pub open spec fn json_text(s: Seq<char>) -> Seq<char> {
    seq!['"'] + escaped_text(s) + seq!['"']
}

fn hex_of(d: u32) -> (c: char)
    requires
        d < 16,
    ensures
        c == hex_char(d as int),
{
    if d < 10 {
        (48 + d as u8) as char
    } else {
        (87 + d as u8) as char
    }
}

/// Appends a text as a JSON string.
pub fn append_json_str(out: &mut String, s: &str)
    ensures
        final(out)@ == old(out)@ + json_text(s@),
{
    let ghost start = out@;
    let cs: Vec<char> = chars_of(s);
    out.push('"');
    let mut i: usize = 0;
    assert(out@ =~= start + seq!['"'] + escaped_text(cs@.take(0)));
    while i < cs.len()
        invariant
            cs@ == s@,
            start == old(out)@,
            i <= cs@.len(),
            out@ == start + seq!['"'] + escaped_text(cs@.take(i as int)),
        decreases cs@.len() - i,
    {
        let c: char = cs[i];
        let ghost before = out@;
        if c == '"' {
            out.push('\\');
            out.push('"');
        } else if c == '\\' {
            out.push('\\');
            out.push('\\');
        } else if c == '\n' {
            out.push('\\');
            out.push('n');
        } else if c == '\r' {
            out.push('\\');
            out.push('r');
        } else if c == '\t' {
            out.push('\\');
            out.push('t');
        } else if code_of(c) < 0x20 {
            let n: u32 = code_of(c);
            out.push('\\');
            out.push('u');
            out.push('0');
            out.push('0');
            out.push(hex_of(n / 16));
            out.push(hex_of(n % 16));
        } else {
            out.push(c);
        }
        proof {
            assert(out@ =~= before + escaped(c));
            assert(cs@.take(i + 1).drop_last() =~= cs@.take(i as int));
            assert(out@ =~= start + seq!['"'] + escaped_text(cs@.take(i + 1)));
        }
        i += 1;
    }
    assert(cs@.take(i as int) =~= cs@);
    out.push('"');
    assert(out@ =~= start + json_text(s@));
}

proof fn lemma_escaped_front(s: Seq<char>)
    requires
        s.len() > 0,
    ensures
        escaped_text(s) == escaped(s[0]) + escaped_text(s.drop_first()),
    decreases s.len(),
{
    if s.len() == 1 {
        assert(s.drop_last() =~= Seq::<char>::empty());
        assert(s.drop_first() =~= Seq::<char>::empty());
        assert(escaped_text(s) =~= escaped(s[0]) + escaped_text(s.drop_first()));
    } else {
        let t = s.drop_last();
        lemma_escaped_front(t);
        assert(t.drop_first() =~= s.drop_first().drop_last());
        assert(s.drop_first().last() == s.last());
        assert(escaped_text(s) =~= escaped(s[0]) + escaped_text(s.drop_first()));
    }
}

/// The first character of an escaped text tells which one was escaped.
proof fn lemma_escaped_unique(a: char, b: char, x: Seq<char>, y: Seq<char>)
    requires
        escaped(a) + x == escaped(b) + y,
    ensures
        a == b,
        x == y,
{
    let l = escaped(a) + x;
    let r = escaped(b) + y;
    assert(l[0] == escaped(a)[0] && r[0] == escaped(b)[0]);
    if l[0] == '\\' {
        assert(l[1] == escaped(a)[1] && r[1] == escaped(b)[1]);
        if l[1] == 'u' {
            assert(l[4] == escaped(a)[4] && r[4] == escaped(b)[4]);
            assert(l[5] == escaped(a)[5] && r[5] == escaped(b)[5]);
        }
    }
    assert(a == b);
    let n = escaped(a).len() as int;
    assert(x =~= l.skip(n));
    assert(y =~= r.skip(n));
}

proof fn lemma_json_unique(a: Seq<char>, b: Seq<char>, x: Seq<char>, y: Seq<char>)
    requires
        escaped_text(a) + seq!['"'] + x == escaped_text(b) + seq!['"'] + y,
    ensures
        a == b,
        x == y,
    decreases a.len(),
{
    let l = escaped_text(a) + seq!['"'] + x;
    let r = escaped_text(b) + seq!['"'] + y;
    if a.len() > 0 {
        lemma_escaped_front(a);
        assert(l =~= escaped(a[0]) + (escaped_text(a.drop_first()) + seq!['"'] + x));
        assert(l[0] == escaped(a[0])[0]);
    }
    if b.len() > 0 {
        lemma_escaped_front(b);
        assert(r =~= escaped(b[0]) + (escaped_text(b.drop_first()) + seq!['"'] + y));
        assert(r[0] == escaped(b[0])[0]);
    }
    if a.len() == 0 {
        assert(l[0] == '"');
        assert(b.len() == 0);
        assert(x =~= l.skip(1));
        assert(y =~= r.skip(1));
        assert(a =~= b);
    } else if b.len() == 0 {
        assert(r[0] == '"');
    } else {
        let xs = escaped_text(a.drop_first()) + seq!['"'] + x;
        let ys = escaped_text(b.drop_first()) + seq!['"'] + y;
        lemma_escaped_unique(a[0], b[0], xs, ys);
        lemma_json_unique(a.drop_first(), b.drop_first(), x, y);
        assert(a =~= seq![a[0]] + a.drop_first());
        assert(b =~= seq![b[0]] + b.drop_first());
    }
}

/// A JSON string tells its text and where it ends: whatever follows, two strings
/// that read the same have the same text and the same rest.
pub proof fn law_json_strings_unambiguous(a: Seq<char>, b: Seq<char>, x: Seq<char>, y: Seq<char>)
    requires
        json_text(a) + x == json_text(b) + y,
    ensures
        a == b,
        x == y,
{
    let l = json_text(a) + x;
    let r = json_text(b) + y;
    assert(l.skip(1) =~= escaped_text(a) + seq!['"'] + x);
    assert(r.skip(1) =~= escaped_text(b) + seq!['"'] + y);
    lemma_json_unique(a, b, x, y);
}

// --- Terms -----------------------------------------------------------------------------

/// The kind of a term in a result.
#[derive(Debug, Clone, Copy, PartialEq, Eq, Structural)]
pub enum ResultKind {
    Uri,
    Bnode,
    Literal,
}

/// A term in a result.
#[derive(Debug)]
pub struct ResultTerm {
    pub kind: ResultKind,
    pub value: String,
    pub datatype: Option<String>,
    pub lang: Option<String>,
}

#[verifier::ext_equal]
pub struct ResultTermView {
    pub kind: ResultKind,
    pub value: Seq<char>,
    pub datatype: Option<Seq<char>>,
    pub lang: Option<Seq<char>>,
}

impl View for ResultTerm {
    type V = ResultTermView;

    open spec fn view(&self) -> ResultTermView {
        ResultTermView {
            kind: self.kind,
            value: self.value@,
            datatype: match self.datatype {
                Some(d) => Some(d@),
                None => None,
            },
            lang: match self.lang {
                Some(l) => Some(l@),
                None => None,
            },
        }
    }
}

/// The term of an identifier. An identifier that the dictionary does not have
/// shows as a literal with its number.
pub open spec fn result_term(keys: Seq<Seq<char>>, id: u32) -> ResultTermView {
    if id < keys.len() {
        let value = key_value(keys[id as int]);
        match key_kind(keys[id as int]) {
            TermKind::Iri => ResultTermView {
                kind: ResultKind::Uri,
                value,
                datatype: None,
                lang: None,
            },
            TermKind::BlankNode => ResultTermView {
                kind: ResultKind::Bnode,
                value,
                datatype: None,
                lang: None,
            },
            TermKind::Literal { datatype, lang } => ResultTermView {
                kind: ResultKind::Literal,
                value,
                datatype,
                lang,
            },
        }
    } else {
        ResultTermView {
            kind: ResultKind::Literal,
            value: "__id_"@ + decimal(id as nat),
            datatype: None,
            lang: None,
        }
    }
}

/// The term of an identifier.
pub fn term_of(id: u32, dict: &Dictionary) -> (r: ResultTerm)
    requires
        dict.wf(),
    ensures
        r@ == result_term(dict.keys(), id),
{
    match (dict.resolve(id), dict.resolve_type(id)) {
        (Some(value), Some(TermType::Iri)) => ResultTerm {
            kind: ResultKind::Uri,
            value,
            datatype: None,
            lang: None,
        },
        (Some(value), Some(TermType::BlankNode)) => ResultTerm {
            kind: ResultKind::Bnode,
            value,
            datatype: None,
            lang: None,
        },
        (Some(value), Some(TermType::Literal { datatype, lang })) => ResultTerm {
            kind: ResultKind::Literal,
            value,
            datatype,
            lang,
        },
        _ => {
            let mut value: String = owned("__id_");
            let n: String = decimal_text(id as u64);
            value.push_str(n.as_str());
            assert(value@ =~= "__id_"@ + decimal(id as nat));
            ResultTerm { kind: ResultKind::Literal, value, datatype: None, lang: None }
        },
    }
}

/// The name of a kind.
pub open spec fn kind_name(k: ResultKind) -> Seq<char> {
    match k {
        ResultKind::Uri => "uri"@,
        ResultKind::Bnode => "bnode"@,
        ResultKind::Literal => "literal"@,
    }
}

/// The name of a kind.
pub fn name_kind(k: ResultKind) -> (r: &'static str)
    ensures
        r@ == kind_name(k),
{
    match k {
        ResultKind::Uri => "uri",
        ResultKind::Bnode => "bnode",
        ResultKind::Literal => "literal",
    }
}

/// A further member of an object, if there is a value for it.
pub open spec fn member_json(head: Seq<char>, value: Option<Seq<char>>) -> Seq<char> {
    match value {
        Some(v) => head + json_text(v),
        None => Seq::empty(),
    }
}

/// A term as a JSON object.
pub open spec fn term_json(t: ResultTermView) -> Seq<char> {
    "{\"type\":\""@ + kind_name(t.kind) + "\",\"value\":"@ + json_text(t.value) + member_json(
        ",\"datatype\":"@,
        t.datatype,
    ) + member_json(",\"xml:lang\":"@, t.lang) + "}"@
}

/// Appends the term of an identifier as a JSON object.
pub fn append_term(out: &mut String, id: u32, dict: &Dictionary)
    requires
        dict.wf(),
    ensures
        final(out)@ == old(out)@ + term_json(result_term(dict.keys(), id)),
{
    let ghost start = out@;
    let t: ResultTerm = term_of(id, dict);
    let ghost tv = t@;
    out.push_str("{\"type\":\"");
    out.push_str(name_kind(t.kind));
    out.push_str("\",\"value\":");
    append_json_str(out, t.value.as_str());
    let ghost mid = out@;
    if let Some(d) = &t.datatype {
        out.push_str(",\"datatype\":");
        append_json_str(out, d.as_str());
    }
    assert(out@ =~= mid + member_json(",\"datatype\":"@, tv.datatype));
    let ghost late = out@;
    if let Some(l) = &t.lang {
        out.push_str(",\"xml:lang\":");
        append_json_str(out, l.as_str());
    }
    assert(out@ =~= late + member_json(",\"xml:lang\":"@, tv.lang));
    out.push_str("}");
    assert(out@ =~= start + term_json(tv));
}

// --- Tables ----------------------------------------------------------------------------

/// The first `n` names, separated by commas.
pub open spec fn names_json(vars: Seq<Seq<char>>, n: int) -> Seq<char>
    decreases n,
{
    if n <= 0 {
        Seq::empty()
    } else if n == 1 {
        json_text(vars[0])
    } else {
        names_json(vars, n - 1) + ","@ + json_text(vars[n - 1])
    }
}

/// The bound cells among the first `n`, separated by commas.
pub open spec fn cells_json(keys: Seq<Seq<char>>, vars: Seq<Seq<char>>, row: Seq<u32>, n: int) -> Seq<char>
    decreases n,
{
    if n <= 0 {
        Seq::empty()
    } else {
        let before = cells_json(keys, vars, row, n - 1);
        if row[n - 1] == NULL_ID {
            before
        } else {
            let cell = json_text(vars[n - 1]) + ":"@ + term_json(result_term(keys, row[n - 1]));
            if before.len() == 0 {
                cell
            } else {
                before + ","@ + cell
            }
        }
    }
}

/// A row as a JSON object; unbound variables are left out.
pub open spec fn row_json(keys: Seq<Seq<char>>, vars: Seq<Seq<char>>, row: Seq<u32>) -> Seq<char> {
    "{"@ + cells_json(keys, vars, row, vars.len() as int) + "}"@
}

/// The first `n` rows, separated by commas.
pub open spec fn rows_json(keys: Seq<Seq<char>>, t: Table, n: int) -> Seq<char>
    decreases n,
{
    if n <= 0 {
        Seq::empty()
    } else if n == 1 {
        row_json(keys, t.vars, t.rows[0])
    } else {
        rows_json(keys, t, n - 1) + ","@ + row_json(keys, t.vars, t.rows[n - 1])
    }
}

/// A table as a JSON document.
pub open spec fn table_json(keys: Seq<Seq<char>>, t: Table) -> Seq<char> {
    "{\"head\":{\"vars\":["@ + names_json(t.vars, t.vars.len() as int)
        + "]},\"results\":{\"bindings\":["@ + rows_json(keys, t, t.rows.len() as int) + "]}}"@
}

/// A truth value as a JSON document.
pub open spec fn boolean_json(b: bool) -> Seq<char> {
    if b {
        "{\"head\":{},\"boolean\":true}"@
    } else {
        "{\"head\":{},\"boolean\":false}"@
    }
}

fn append_names(out: &mut String, vars: &Vec<String>)
    ensures
        final(out)@ == old(out)@ + names_json(texts(vars@), vars@.len() as int),
{
    let ghost start = out@;
    let ghost vs = texts(vars@);
    let mut i: usize = 0;
    assert(out@ =~= start + names_json(vs, 0));
    while i < vars.len()
        invariant
            start == old(out)@,
            vs == texts(vars@),
            i <= vars@.len(),
            out@ == start + names_json(vs, i as int),
        decreases vars@.len() - i,
    {
        let ghost before = out@;
        assert(vs[i as int] == vars@[i as int]@);
        if i > 0 {
            out.push_str(",");
        }
        append_json_str(out, vars[i].as_str());
        i += 1;
        assert(out@ =~= start + names_json(vs, i as int));
    }
}

/// Appends a row as a JSON object.
fn append_row(out: &mut String, vars: &Vec<String>, row: &[u32], dict: &Dictionary)
    requires
        dict.wf(),
        row@.len() == vars@.len(),
    ensures
        final(out)@ == old(out)@ + row_json(dict.keys(), texts(vars@), row@),
{
    let ghost start = out@;
    let ghost vs = texts(vars@);
    let ghost keys = dict.keys();
    out.push_str("{");
    let mut first: bool = true;
    let mut i: usize = 0;
    assert(out@ =~= start + "{"@ + cells_json(keys, vs, row@, 0));
    while i < vars.len()
        invariant
            start == old(out)@,
            vs == texts(vars@),
            keys == dict.keys(),
            dict.wf(),
            row@.len() == vars@.len(),
            i <= vars@.len(),
            first == (cells_json(keys, vs, row@, i as int).len() == 0),
            out@ == start + "{"@ + cells_json(keys, vs, row@, i as int),
        decreases vars@.len() - i,
    {
        let id: u32 = row[i];
        assert(vs[i as int] == vars@[i as int]@);
        if id != NULL_ID {
            if !first {
                out.push_str(",");
            }
            first = false;
            append_json_str(out, vars[i].as_str());
            out.push_str(":");
            append_term(out, id, dict);
            proof {
                let cell = json_text(vs[i as int]) + ":"@ + term_json(result_term(keys, id));
                assert(json_text(vs[i as int]).len() >= 2);
                assert(cell.len() > 0);
                assert(out@ =~= start + "{"@ + cells_json(keys, vs, row@, i + 1));
            }
        }
        i += 1;
    }
    out.push_str("}");
    assert(out@ =~= start + row_json(keys, vs, row@));
}

/// A table as a JSON document.
pub fn write_sparql_json(result: &Solutions, dict: &Dictionary) -> (out: String)
    requires
        result.wf(),
        dict.wf(),
    ensures
        out@ == table_json(dict.keys(), result@),
{
    let ghost keys = dict.keys();
    let ghost t = result@;
    let mut out: String = owned("{\"head\":{\"vars\":[");
    append_names(&mut out, &result.vars);
    out.push_str("]},\"results\":{\"bindings\":[");
    let ghost start = out@;
    let n: usize = result.rows.n_rows();
    let mut i: usize = 0;
    assert(out@ =~= start + rows_json(keys, t, 0));
    while i < n
        invariant
            result.wf(),
            dict.wf(),
            keys == dict.keys(),
            t == result@,
            n == t.rows.len(),
            i <= n,
            out@ == start + rows_json(keys, t, i as int),
        decreases n - i,
    {
        if i > 0 {
            out.push_str(",");
        }
        append_row(&mut out, &result.vars, result.rows.row(i), dict);
        i += 1;
        assert(out@ =~= start + rows_json(keys, t, i as int));
    }
    out.push_str("]}}");
    assert(out@ =~= table_json(keys, t));
    out
}

/// A truth value as a JSON document.
pub fn write_boolean(b: bool) -> (out: String)
    ensures
        out@ == boolean_json(b),
{
    if b {
        owned("{\"head\":{},\"boolean\":true}")
    } else {
        owned("{\"head\":{},\"boolean\":false}")
    }
}

} // verus!
