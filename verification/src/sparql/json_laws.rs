//! What the JSON texts of results stand for.

use crate::hypertrie::dictionary::{encodable, key_kind, key_value, law_key_round_trip, term_key, xsd_string, TermKind};
use crate::hypertrie::NULL_ID;
use crate::sparql::json::{
    boolean_json, cells_json, escaped, escaped_text, hex_char, json_text, member_json, names_json,
    result_term, row_json, rows_json, table_json, term_json,
};
use crate::sparql::service::{object_text, row_members, stream, term_fields, LeafView, MemberView};
use crate::sparql::tables::Table;
use crate::text::decimal;
use vstd::prelude::*;

verus! {

// --- Strings ---------------------------------------------------------------------------

/// The number that a hexadecimal digit stands for.
pub open spec fn hex_digit(c: char) -> Option<int> {
    if '0' <= c <= '9' {
        Some(c as int - '0' as int)
    } else if 'a' <= c <= 'f' {
        Some(c as int - 'a' as int + 10)
    } else if 'A' <= c <= 'F' {
        Some(c as int - 'A' as int + 10)
    } else {
        None
    }
}

/// The number that the digits stand for.
pub open spec fn hex_number(s: Seq<char>) -> Option<int>
    decreases s.len(),
{
    if s.len() == 0 {
        Some(0)
    } else {
        match (hex_number(s.drop_last()), hex_digit(s.last())) {
            (Some(n), Some(d)) => Some(16 * n + d),
            _ => None,
        }
    }
}

/// The character that a letter behind a backslash stands for.
pub open spec fn escape(c: char) -> Option<char> {
    if c == '"' || c == '\\' || c == '/' {
        Some(c)
    } else if c == 'n' {
        Some('\n')
    } else if c == 'r' {
        Some('\r')
    } else if c == 't' {
        Some('\t')
    } else {
        None
    }
}

/// The first character of the inside of a JSON string, and what follows.
pub open spec fn read_char(s: Seq<char>) -> Option<(char, Seq<char>)> {
    if s.len() == 0 || s[0] == '"' || (s[0] as int) < 0x20 {
        None
    } else if s[0] != '\\' {
        Some((s[0], s.skip(1)))
    } else if s.len() < 2 {
        None
    } else if s[1] != 'u' {
        match escape(s[1]) {
            Some(c) => Some((c, s.skip(2))),
            None => None,
        }
    } else if s.len() < 6 {
        None
    } else {
        match hex_number(s.subrange(2, 6)) {
            Some(n) => Some((n as char, s.skip(6))),
            None => None,
        }
    }
}

/// The text of a JSON string whose opening quote was read, and what follows it.
pub open spec fn read_string(s: Seq<char>) -> Option<(Seq<char>, Seq<char>)>
    decreases s.len(),
{
    if s.len() > 0 && s[0] == '"' {
        Some((Seq::empty(), s.skip(1)))
    } else {
        match read_char(s) {
            Some((c, rest)) => if rest.len() < s.len() {
                match read_string(rest) {
                    Some((text, after)) => Some((seq![c] + text, after)),
                    None => None,
                }
            } else {
                None
            },
            None => None,
        }
    }
}

proof fn lemma_escaped(c: char, rest: Seq<char>)
    ensures
        escaped(c).len() > 0,
        escaped(c)[0] != '"',
        read_char(escaped(c) + rest) == Some((c, rest)),
{
    let s = escaped(c) + rest;
    if c == '"' || c == '\\' || c == '\n' || c == '\r' || c == '\t' {
        assert(s.skip(2) =~= rest);
    } else if (c as int) < 0x20 {
        let n = c as int;
        let digits = s.subrange(2, 6);
        assert(s.skip(6) =~= rest);
        assert(digits =~= seq!['0', '0', hex_char(n / 16), hex_char(n % 16)]);
        assert(hex_digit(hex_char(n / 16)) == Some(n / 16));
        assert(hex_digit(hex_char(n % 16)) == Some(n % 16));
        reveal_with_fuel(hex_number, 5);
        assert(digits.drop_last() =~= seq!['0', '0', hex_char(n / 16)]);
        assert(digits.drop_last().drop_last() =~= seq!['0', '0']);
        assert(digits.drop_last().drop_last().drop_last() =~= seq!['0']);
        assert(digits.drop_last().drop_last().drop_last().drop_last() =~= Seq::<char>::empty());
        assert(hex_number(digits) == Some(16 * (n / 16) + n % 16));
        assert(16 * (n / 16) + n % 16 == n);
    } else {
        assert(s.skip(1) =~= rest);
    }
}

proof fn lemma_escaped_first(s: Seq<char>)
    requires
        s.len() > 0,
    ensures
        escaped_text(s) == escaped(s[0]) + escaped_text(s.skip(1)),
    decreases s.len(),
{
    if s.len() == 1 {
        assert(s.drop_last() =~= Seq::<char>::empty());
        assert(s.skip(1) =~= Seq::<char>::empty());
        reveal_with_fuel(escaped_text, 2);
        assert(escaped_text(s) =~= escaped(s[0]) + escaped_text(s.skip(1)));
    } else {
        lemma_escaped_first(s.drop_last());
        assert(s.drop_last().skip(1) =~= s.skip(1).drop_last());
        assert(escaped_text(s) =~= escaped(s[0]) + escaped_text(s.skip(1)));
    }
}

proof fn lemma_string_reads(a: Seq<char>, rest: Seq<char>)
    ensures
        read_string(escaped_text(a) + seq!['"'] + rest) == Some((a, rest)),
    decreases a.len(),
{
    let s = escaped_text(a) + seq!['"'] + rest;
    if a.len() == 0 {
        assert(escaped_text(a) =~= Seq::<char>::empty());
        assert(s.skip(1) =~= rest);
        assert(a =~= Seq::<char>::empty());
    } else {
        lemma_escaped_first(a);
        let tail = escaped_text(a.skip(1)) + seq!['"'] + rest;
        assert(s =~= escaped(a[0]) + tail);
        lemma_escaped(a[0], tail);
        lemma_string_reads(a.skip(1), rest);
        assert(seq![a[0]] + a.skip(1) =~= a);
    }
}

/// The JSON string of a text starts with a quote and is read back as the text, whatever
/// follows it.
pub proof fn law_json_string_reads(a: Seq<char>, rest: Seq<char>)
    ensures
        json_text(a).len() > 0,
        json_text(a)[0] == '"',
        read_string((json_text(a) + rest).skip(1)) == Some((a, rest)),
{
    lemma_string_reads(a, rest);
    assert((json_text(a) + rest).skip(1) =~= escaped_text(a) + seq!['"'] + rest);
}

// --- Documents -------------------------------------------------------------------------

/// A JSON value.
pub enum Json {
    Text(Seq<char>),
    Truth(bool),
    List(Seq<Json>),
    Object(Seq<(Seq<char>, Json)>),
}

/// A JSON value as text, without spaces.
pub open spec fn json_of(j: Json) -> Seq<char>
    decreases j, 0int,
{
    match j {
        Json::Text(s) => json_text(s),
        Json::Truth(b) => if b {
            "true"@
        } else {
            "false"@
        },
        Json::List(xs) => "["@ + list_text(xs, xs.len() as int) + "]"@,
        Json::Object(ms) => "{"@ + members_text(ms, ms.len() as int) + "}"@,
    }
}

/// The first `n` values, with commas between them.
pub open spec fn list_text(xs: Seq<Json>, n: int) -> Seq<char>
    decreases xs, n,
{
    if n <= 0 || n > xs.len() {
        Seq::empty()
    } else {
        list_text(xs, n - 1) + comma(n) + json_of(xs[n - 1])
    }
}

/// The first `n` members, with commas between them.
pub open spec fn members_text(ms: Seq<(Seq<char>, Json)>, n: int) -> Seq<char>
    decreases ms, n,
{
    if n <= 0 || n > ms.len() {
        Seq::empty()
    } else {
        members_text(ms, n - 1) + comma(n) + json_text(ms[n - 1].0) + ":"@ + json_of(ms[n - 1].1)
    }
}

/// What stands before item `n`.
pub open spec fn comma(n: int) -> Seq<char> {
    if n <= 1 {
        Seq::empty()
    } else {
        ","@
    }
}

/// A member with a text.
pub open spec fn text_member(name: Seq<char>, value: Seq<char>) -> (Seq<char>, Json) {
    (name, Json::Text(value))
}

/// The members that say what a literal has besides its text.
pub open spec fn literal_members(datatype: Option<Seq<char>>, lang: Option<Seq<char>>) -> Seq<(Seq<char>, Json)> {
    (match datatype {
        Some(d) => seq![text_member("datatype"@, d)],
        None => Seq::empty(),
    }) + (match lang {
        Some(l) => seq![text_member("xml:lang"@, l)],
        None => Seq::empty(),
    })
}

/// A term as a JSON object: its kind, its text, and for a literal its datatype or language.
pub open spec fn term_object(s: Seq<char>, k: TermKind) -> Json {
    match k {
        TermKind::Iri => Json::Object(seq![text_member("type"@, "uri"@), text_member("value"@, s)]),
        TermKind::BlankNode => Json::Object(seq![text_member("type"@, "bnode"@), text_member("value"@, s)]),
        TermKind::Literal { datatype, lang } => Json::Object(
            seq![text_member("type"@, "literal"@), text_member("value"@, s)] + literal_members(datatype, lang),
        ),
    }
}

proof fn lemma_strings()
    ensures
        json_text("type"@) == "\"type\""@,
        json_text("value"@) == "\"value\""@,
        json_text("datatype"@) == "\"datatype\""@,
        json_text("xml:lang"@) == "\"xml:lang\""@,
        json_text("uri"@) == "\"uri\""@,
        json_text("bnode"@) == "\"bnode\""@,
        json_text("literal"@) == "\"literal\""@,
{
    lemma_plain("type"@);
    lemma_plain("value"@);
    lemma_plain("datatype"@);
    lemma_plain("xml:lang"@);
    lemma_plain("uri"@);
    lemma_plain("bnode"@);
    lemma_plain("literal"@);
    reveal_strlit("type");
    reveal_strlit("value");
    reveal_strlit("datatype");
    reveal_strlit("xml:lang");
    reveal_strlit("uri");
    reveal_strlit("bnode");
    reveal_strlit("literal");
    reveal_strlit("\"type\"");
    reveal_strlit("\"value\"");
    reveal_strlit("\"datatype\"");
    reveal_strlit("\"xml:lang\"");
    reveal_strlit("\"uri\"");
    reveal_strlit("\"bnode\"");
    reveal_strlit("\"literal\"");
    assert(json_text("type"@) =~= "\"type\""@);
    assert(json_text("value"@) =~= "\"value\""@);
    assert(json_text("datatype"@) =~= "\"datatype\""@);
    assert(json_text("xml:lang"@) =~= "\"xml:lang\""@);
    assert(json_text("uri"@) =~= "\"uri\""@);
    assert(json_text("bnode"@) =~= "\"bnode\""@);
    assert(json_text("literal"@) =~= "\"literal\""@);
}

/// No character of the text needs an escape.
pub open spec fn unescaped(s: Seq<char>) -> bool {
    forall|i: int| 0 <= i < s.len() ==> (#[trigger] s[i]) as int >= 0x20 && s[i] != '"' && s[i] != '\\'
}

proof fn lemma_plain(s: Seq<char>)
    ensures
        unescaped(s) ==> json_text(s) == seq!['"'] + s + seq!['"'],
    decreases s.len(),
{
    if unescaped(s) {
        lemma_unescaped(s);
    }
}

proof fn lemma_unescaped(s: Seq<char>)
    requires
        unescaped(s),
    ensures
        escaped_text(s) == s,
    decreases s.len(),
{
    if s.len() > 0 {
        lemma_unescaped(s.drop_last());
        assert(s[s.len() - 1] == s.last());
        assert(escaped_text(s) =~= s);
    } else {
        assert(escaped_text(s) =~= s);
    }
}


proof fn lemma_two(a: (Seq<char>, Json), b: (Seq<char>, Json))
    ensures
        members_text(seq![a, b], 2) == json_text(a.0) + ":"@ + json_of(a.1) + ","@ + json_text(b.0) + ":"@ + json_of(b.1),
{
    let ms = seq![a, b];
    reveal_with_fuel(members_text, 3);
    assert(members_text(ms, 0) =~= Seq::<char>::empty());
    assert(members_text(ms, 1) =~= json_text(a.0) + ":"@ + json_of(a.1));
    assert(members_text(ms, 2) =~= json_text(a.0) + ":"@ + json_of(a.1) + ","@ + json_text(b.0) + ":"@ + json_of(b.1));
}

proof fn lemma_members_prefix(a: Seq<(Seq<char>, Json)>, b: Seq<(Seq<char>, Json)>, n: int)
    requires
        n <= a.len(),
        n <= b.len(),
        forall|i: int| 0 <= i < n ==> a[i] == b[i],
    ensures
        members_text(a, n) == members_text(b, n),
    decreases n,
{
    if n > 0 {
        lemma_members_prefix(a, b, n - 1);
    }
}

proof fn lemma_one_more(ms: Seq<(Seq<char>, Json)>, m: (Seq<char>, Json))
    requires
        ms.len() > 0,
    ensures
        members_text(ms.push(m), ms.len() as int + 1) == members_text(ms, ms.len() as int) + ","@ + json_text(m.0) + ":"@
            + json_of(m.1),
{
    let all = ms.push(m);
    lemma_members_prefix(all, ms, ms.len() as int);
    assert(all[ms.len() as int] == m);
}

/// The text of a term of the dictionary is the object with its kind, its text and, for a
/// literal, its datatype or language.
pub proof fn law_term_json(keys: Seq<Seq<char>>, id: u32)
    requires
        id < keys.len(),
    ensures
        term_json(result_term(keys, id)) == json_of(
            term_object(key_value(keys[id as int]), key_kind(keys[id as int])),
        ),
{
    let s = key_value(keys[id as int]);
    let k = key_kind(keys[id as int]);
    let t = result_term(keys, id);
    lemma_strings();
    let name = match k {
        TermKind::Iri => "uri"@,
        TermKind::BlankNode => "bnode"@,
        TermKind::Literal { .. } => "literal"@,
    };
    let ms = seq![text_member("type"@, name), text_member("value"@, s)];
    lemma_two(text_member("type"@, name), text_member("value"@, s));
    assert(unescaped(name)) by {
        reveal_strlit("uri");
        reveal_strlit("bnode");
        reveal_strlit("literal");
    }
    lemma_head(name, s);
    let start = "{\"type\":\""@ + name + "\",\"value\":"@ + json_text(s);
    assert(start == "{"@ + members_text(ms, 2));
    assert(t.datatype == None::<Seq<char>> ==> member_json(",\"datatype\":"@, t.datatype) =~= Seq::<char>::empty());
    match k {
        TermKind::Literal { datatype, lang } => {
            lemma_member_heads();
            let ds = match datatype {
                Some(d) => ms.push(text_member("datatype"@, d)),
                None => ms,
            };
            if let Some(d) = datatype {
                lemma_one_more(ms, text_member("datatype"@, d));
            }
            let mid = start + member_json(",\"datatype\":"@, datatype);
            assert(mid =~= "{"@ + members_text(ds, ds.len() as int));
            let ls = match lang {
                Some(l) => ds.push(text_member("xml:lang"@, l)),
                None => ds,
            };
            if let Some(l) = lang {
                lemma_one_more(ds, text_member("xml:lang"@, l));
            }
            assert(mid + member_json(",\"xml:lang\":"@, lang) =~= "{"@ + members_text(ls, ls.len() as int));
            assert(ls =~= ms + literal_members(datatype, lang));
        },
        _ => {
            assert(start + member_json(",\"datatype\":"@, t.datatype) + member_json(",\"xml:lang\":"@, t.lang) =~= start);
        },
    }
}

proof fn lemma_head(name: Seq<char>, s: Seq<char>)
    requires
        unescaped(name),
    ensures
        "{\"type\":\""@ + name + "\",\"value\":"@ + json_text(s) == "{"@ + (json_text("type"@) + ":"@ + json_text(
            name,
        ) + ","@ + json_text("value"@) + ":"@ + json_text(s)),
{
    lemma_strings();
    lemma_plain(name);
    reveal_strlit("{\"type\":\"");
    reveal_strlit("\",\"value\":");
    reveal_strlit("{");
    reveal_strlit(":");
    reveal_strlit(",");
    reveal_strlit("\"type\"");
    reveal_strlit("\"value\"");
    assert("{\"type\":\""@ =~= "{"@ + "\"type\""@ + ":"@ + seq!['"']);
    assert("\",\"value\":"@ =~= seq!['"'] + ","@ + "\"value\""@ + ":"@);
    assert("{\"type\":\""@ + name + "\",\"value\":"@ + json_text(s) =~= "{"@ + (json_text("type"@) + ":"@ + json_text(
        name,
    ) + ","@ + json_text("value"@) + ":"@ + json_text(s)));
}

proof fn lemma_member_heads()
    ensures
        ",\"datatype\":"@ == ","@ + json_text("datatype"@) + ":"@,
        ",\"xml:lang\":"@ == ","@ + json_text("xml:lang"@) + ":"@,
{
    lemma_strings();
    reveal_strlit(",\"datatype\":");
    reveal_strlit(",\"xml:lang\":");
    reveal_strlit(":");
    reveal_strlit(",");
    reveal_strlit("\"datatype\"");
    reveal_strlit("\"xml:lang\"");
    assert(",\"datatype\":"@ =~= ","@ + json_text("datatype"@) + ":"@);
    assert(",\"xml:lang\":"@ =~= ","@ + json_text("xml:lang"@) + ":"@);
}

/// What the identifier of a cell shows.
pub open spec fn cell_object(keys: Seq<Seq<char>>, id: u32) -> Json {
    if id < keys.len() {
        term_object(key_value(keys[id as int]), key_kind(keys[id as int]))
    } else {
        Json::Object(seq![text_member("type"@, "literal"@), text_member("value"@, "__id_"@ + decimal(id as nat))])
    }
}

/// The first `n` cells of a row that are bound, each under its variable.
pub open spec fn cell_members(keys: Seq<Seq<char>>, vars: Seq<Seq<char>>, row: Seq<u32>, n: int) -> Seq<
    (Seq<char>, Json),
>
    decreases n,
{
    if n <= 0 {
        Seq::empty()
    } else if row[n - 1] == NULL_ID {
        cell_members(keys, vars, row, n - 1)
    } else {
        cell_members(keys, vars, row, n - 1).push((vars[n - 1], cell_object(keys, row[n - 1])))
    }
}

/// A row as a JSON object: its bound cells under their variables.
pub open spec fn row_object(keys: Seq<Seq<char>>, vars: Seq<Seq<char>>, row: Seq<u32>) -> Json {
    Json::Object(cell_members(keys, vars, row, vars.len() as int))
}

/// The document of a table: the variables in its head, the rows in its results.
pub open spec fn table_object(keys: Seq<Seq<char>>, t: Table) -> Json {
    Json::Object(
        seq![
            ("head"@, Json::Object(seq![("vars"@, Json::List(t.vars.map_values(|n: Seq<char>| Json::Text(n))))])),
            (
                "results"@,
                Json::Object(
                    seq![
                        (
                            "bindings"@,
                            Json::List(t.rows.map_values(|r: Seq<u32>| row_object(keys, t.vars, r))),
                        ),
                    ],
                ),
            ),
        ],
    )
}

proof fn lemma_cell(keys: Seq<Seq<char>>, id: u32)
    ensures
        term_json(result_term(keys, id)) == json_of(cell_object(keys, id)),
{
    if id < keys.len() {
        law_term_json(keys, id);
    } else {
        let s = "__id_"@ + decimal(id as nat);
        let t = result_term(keys, id);
        lemma_strings();
        reveal_strlit("literal");
        lemma_two(text_member("type"@, "literal"@), text_member("value"@, s));
        lemma_head("literal"@, s);
        assert(term_json(t) =~= "{\"type\":\""@ + "literal"@ + "\",\"value\":"@ + json_text(s) + "}"@);
    }
}

proof fn lemma_cells_text(keys: Seq<Seq<char>>, vars: Seq<Seq<char>>, row: Seq<u32>, n: int)
    requires
        0 <= n,
    ensures
        ({
            let ms = cell_members(keys, vars, row, n);
            &&& cells_json(keys, vars, row, n) == members_text(ms, ms.len() as int)
            &&& cells_json(keys, vars, row, n).len() == 0 <==> ms.len() == 0
        }),
    decreases n,
{
    if n > 0 {
        lemma_cells_text(keys, vars, row, n - 1);
        let ms = cell_members(keys, vars, row, n - 1);
        if row[n - 1] != NULL_ID {
            let m = (vars[n - 1], cell_object(keys, row[n - 1]));
            lemma_cell(keys, row[n - 1]);
            let all = ms.push(m);
            lemma_members_prefix(all, ms, ms.len() as int);
            assert(all[ms.len() as int] == m);
            assert(members_text(all, all.len() as int) == members_text(all, ms.len() as int) + comma(ms.len() as int + 1)
                + json_text(m.0) + ":"@ + json_of(m.1));
            assert(json_text(m.0).len() > 0);
            assert(cells_json(keys, vars, row, n) =~= members_text(all, all.len() as int));
        }
    }
}

proof fn lemma_names_text(vars: Seq<Seq<char>>, n: int)
    requires
        0 <= n <= vars.len(),
    ensures
        names_json(vars, n) == list_text(vars.map_values(|v: Seq<char>| Json::Text(v)), n),
    decreases n,
{
    let xs = vars.map_values(|v: Seq<char>| Json::Text(v));
    if n > 0 {
        lemma_names_text(vars, n - 1);
        assert(xs[n - 1] == Json::Text(vars[n - 1]));
        assert(names_json(vars, n) =~= list_text(xs, n - 1) + comma(n) + json_of(xs[n - 1]));
    }
}

proof fn lemma_rows_text(keys: Seq<Seq<char>>, t: Table, n: int)
    requires
        0 <= n <= t.rows.len(),
    ensures
        rows_json(keys, t, n) == list_text(t.rows.map_values(|r: Seq<u32>| row_object(keys, t.vars, r)), n),
    decreases n,
{
    let xs = t.rows.map_values(|r: Seq<u32>| row_object(keys, t.vars, r));
    if n > 0 {
        lemma_rows_text(keys, t, n - 1);
        let x = row_object(keys, t.vars, t.rows[n - 1]);
        assert(xs[n - 1] == x);
        lemma_cells_text(keys, t.vars, t.rows[n - 1], t.vars.len() as int);
        assert(row_json(keys, t.vars, t.rows[n - 1]) == json_of(x));
        assert(rows_json(keys, t, n) =~= list_text(xs, n - 1) + comma(n) + json_of(xs[n - 1]));
    }
}

proof fn lemma_single(m: (Seq<char>, Json))
    ensures
        json_of(Json::Object(seq![m])) == "{"@ + json_text(m.0) + ":"@ + json_of(m.1) + "}"@,
{
    let ms = seq![m];
    reveal_with_fuel(members_text, 2);
    assert(members_text(ms, 1) =~= json_text(m.0) + ":"@ + json_of(m.1));
    assert(json_of(Json::Object(ms)) =~= "{"@ + json_text(m.0) + ":"@ + json_of(m.1) + "}"@);
}

/// The JSON text of a table is that of an object with the variables of the table, in their
/// order, in its head, and a row object for every row, in its order, in its results.
pub proof fn law_table_json(keys: Seq<Seq<char>>, t: Table)
    ensures
        table_json(keys, t) == json_of(table_object(keys, t)),
{
    let names = Json::List(t.vars.map_values(|n: Seq<char>| Json::Text(n)));
    let rows = Json::List(t.rows.map_values(|r: Seq<u32>| row_object(keys, t.vars, r)));
    lemma_names_text(t.vars, t.vars.len() as int);
    lemma_rows_text(keys, t, t.rows.len() as int);
    lemma_single(("vars"@, names));
    lemma_single(("bindings"@, rows));
    let head = ("head"@, Json::Object(seq![("vars"@, names)]));
    let results = ("results"@, Json::Object(seq![("bindings"@, rows)]));
    lemma_two(head, results);
    lemma_table_words();
    let a = names_json(t.vars, t.vars.len() as int);
    let b = rows_json(keys, t, t.rows.len() as int);
    assert(json_of(names) =~= "["@ + a + "]"@);
    assert(json_of(rows) =~= "["@ + b + "]"@);
    lemma_regroup(
        json_text("head"@) + ":"@ + "{"@ + json_text("vars"@) + ":"@,
        json_text("results"@) + ":"@ + "{"@ + json_text("bindings"@) + ":"@,
        a,
        b,
    );
    let one = json_text("head"@) + ":"@ + ("{"@ + json_text("vars"@) + ":"@ + json_of(names) + "}"@);
    let two = json_text("results"@) + ":"@ + ("{"@ + json_text("bindings"@) + ":"@ + json_of(rows) + "}"@);
    assert(one =~= json_text("head"@) + ":"@ + "{"@ + json_text("vars"@) + ":"@ + ("["@ + a + "]"@) + "}"@);
    assert(two =~= json_text("results"@) + ":"@ + "{"@ + json_text("bindings"@) + ":"@ + ("["@ + b + "]"@) + "}"@);
    assert(members_text(seq![head, results], 2) =~= one + ","@ + two);
    assert(json_of(table_object(keys, t)) == "{"@ + members_text(seq![head, results], 2) + "}"@);
}

proof fn lemma_regroup(x: Seq<char>, y: Seq<char>, a: Seq<char>, b: Seq<char>)
    ensures
        ("{"@ + x + "["@) + a + ("]"@ + "}"@ + ","@ + y + "["@) + b + ("]"@ + "}"@ + "}"@) == "{"@ + ((x + ("["@ + a
            + "]"@) + "}"@) + ","@ + (y + ("["@ + b + "]"@) + "}"@)) + "}"@,
{
    assert(("{"@ + x + "["@) + a + ("]"@ + "}"@ + ","@ + y + "["@) + b + ("]"@ + "}"@ + "}"@) =~= "{"@ + ((x + ("["@ + a
        + "]"@) + "}"@) + ","@ + (y + ("["@ + b + "]"@) + "}"@)) + "}"@);
}

proof fn lemma_table_words()
    ensures
        "{\"head\":{\"vars\":["@ == "{"@ + (json_text("head"@) + ":"@ + "{"@ + json_text("vars"@) + ":"@) + "["@,
        "]},\"results\":{\"bindings\":["@ == "]"@ + "}"@ + ","@ + (json_text("results"@) + ":"@ + "{"@ + json_text(
            "bindings"@,
        ) + ":"@) + "["@,
        "]}}"@ == "]"@ + "}"@ + "}"@,
{
    reveal_strlit("head");
    reveal_strlit("vars");
    reveal_strlit("results");
    reveal_strlit("bindings");
    lemma_plain("head"@);
    lemma_plain("vars"@);
    lemma_plain("results"@);
    lemma_plain("bindings"@);
    reveal_strlit("{\"head\":{\"vars\":[");
    reveal_strlit("]},\"results\":{\"bindings\":[");
    reveal_strlit("]}}");
    reveal_strlit("{");
    reveal_strlit("}");
    reveal_strlit("[");
    reveal_strlit("]");
    reveal_strlit(":");
    reveal_strlit(",");
    assert("{\"head\":{\"vars\":["@ =~= "{"@ + (json_text("head"@) + ":"@ + "{"@ + json_text("vars"@) + ":"@) + "["@);
    assert("]},\"results\":{\"bindings\":["@ =~= "]"@ + "}"@ + ","@ + (json_text("results"@) + ":"@ + "{"@ + json_text(
        "bindings"@,
    ) + ":"@) + "["@);
    assert("]}}"@ =~= "]"@ + "}"@ + "}"@);
}


/// The JSON text of a truth value.
pub proof fn law_boolean_json(b: bool)
    ensures
        boolean_json(b) == json_of(
            Json::Object(seq![("head"@, Json::Object(Seq::empty())), ("boolean"@, Json::Truth(b))]),
        ),
{
    let none = Json::Object(Seq::empty());
    let head = ("head"@, none);
    let truth = ("boolean"@, Json::Truth(b));
    lemma_two(head, truth);
    reveal_strlit("head");
    reveal_strlit("boolean");
    lemma_plain("head"@);
    lemma_plain("boolean"@);
    reveal_strlit("{\"head\":{},\"boolean\":true}");
    reveal_strlit("{\"head\":{},\"boolean\":false}");
    reveal_strlit("true");
    reveal_strlit("false");
    reveal_strlit("{");
    reveal_strlit("}");
    reveal_strlit(":");
    reveal_strlit(",");
    assert(json_of(none) =~= "{"@ + "}"@);
    assert(boolean_json(b) =~= json_of(Json::Object(seq![head, truth])));
}

/// A term that was stored shows as itself.
pub proof fn law_stored_term_json(keys: Seq<Seq<char>>, id: u32, s: Seq<char>, k: TermKind)
    requires
        id < keys.len(),
        encodable(s, k),
        keys[id as int] == term_key(s, k),
        k matches TermKind::Literal { datatype, lang } ==> datatype is None || (lang is None && datatype
            != Some(xsd_string())),
    ensures
        term_json(result_term(keys, id)) == json_of(term_object(s, k)),
{
    law_key_round_trip(s, k);
    law_term_json(keys, id);
}

// --- Streams ---------------------------------------------------------------------------

/// The fields of a term in a line of a stream.
pub open spec fn field_list(s: Seq<char>, k: TermKind) -> Seq<(Seq<char>, LeafView)> {
    match k {
        TermKind::Iri => seq![("type"@, LeafView::Text("uri"@)), ("value"@, LeafView::Text(s))],
        TermKind::BlankNode => seq![("type"@, LeafView::Text("bnode"@)), ("value"@, LeafView::Text(s))],
        TermKind::Literal { datatype: Some(d), lang: None } => seq![
            ("type"@, LeafView::Text("literal"@)),
            ("value"@, LeafView::Text(s)),
            ("datatype"@, LeafView::Text(d)),
        ],
        TermKind::Literal { datatype: None, lang: Some(l) } => seq![
            ("type"@, LeafView::Text("literal"@)),
            ("value"@, LeafView::Text(s)),
            ("xml:lang"@, LeafView::Text(l)),
        ],
        TermKind::Literal { datatype: None, lang: None } => seq![
            ("type"@, LeafView::Text("literal"@)),
            ("value"@, LeafView::Text(s)),
        ],
        TermKind::Literal { datatype: Some(d), lang: Some(l) } => seq![
            ("type"@, LeafView::Text("literal"@)),
            ("value"@, LeafView::Text(s)),
            ("datatype"@, LeafView::Text(d)),
            ("xml:lang"@, LeafView::Text(l)),
        ],
    }
}

/// A member of a row in a stream: the variable with the fields of its term, or with null.
pub open spec fn shows_cell(keys: Seq<Seq<char>>, name: Seq<char>, id: u32, m: (Seq<char>, MemberView)) -> bool {
    &&& m.0 == name
    &&& id == NULL_ID ==> m.1 == MemberView::Leaf(LeafView::Null)
    &&& id != NULL_ID && id < keys.len() ==> m.1 == MemberView::Fields(
        field_list(key_value(keys[id as int]), key_kind(keys[id as int])),
    )
}

/// The members of a row, one for each variable.
pub open spec fn shows_row(keys: Seq<Seq<char>>, vars: Seq<Seq<char>>, row: Seq<u32>, ms: Seq<(Seq<char>, MemberView)>) -> bool {
    &&& ms.len() == vars.len()
    &&& forall|c: int| 0 <= c < vars.len() ==> shows_cell(keys, vars[c], row[c], #[trigger] ms[c])
}

/// A line of a stream is the object of a row.
pub open spec fn line_shows(keys: Seq<Seq<char>>, vars: Seq<Seq<char>>, row: Seq<u32>, line: Seq<char>) -> bool {
    exists|ms: Seq<(Seq<char>, MemberView)>| #[trigger]
        shows_row(keys, vars, row, ms) && line == object_text(ms) + "\n"@
}

/// A stream has a line with the variables and then a line for each row, in its order; where
/// the query failed it has one line, with the error. Every line is one object.
pub proof fn law_stream_lines(keys: Seq<Seq<char>>, t: Table, e: Seq<char>)
    ensures
        stream(keys, Err(e)) == seq![
            object_text(seq![("error"@, MemberView::Leaf(LeafView::Text(e)))]) + "\n"@,
        ],
        stream(keys, Ok(t)).len() == 1 + t.rows.len(),
        stream(keys, Ok(t))[0] == object_text(
            seq![("head"@, MemberView::Fields(seq![("vars"@, LeafView::Texts(t.vars))]))],
        ) + "\n"@,
        forall|i: int|
            0 <= i < t.rows.len() ==> line_shows(keys, t.vars, #[trigger] t.rows[i], stream(keys, Ok(t))[1 + i]),
{
    reveal_strlit("\n");
    let out = stream(keys, Ok(t));
    let head = object_text(seq![("head"@, MemberView::Fields(seq![("vars"@, LeafView::Texts(t.vars))]))]);
    assert(head.push('\n') =~= head + "\n"@);
    let error = object_text(seq![("error"@, MemberView::Leaf(LeafView::Text(e)))]);
    assert(error.push('\n') =~= error + "\n"@);
    assert forall|i: int| 0 <= i < t.rows.len() implies line_shows(keys, t.vars, #[trigger] t.rows[i], out[1 + i]) by {
        let row = t.rows[i];
        let ms = row_members(keys, t.vars, row);
        assert forall|c: int| 0 <= c < t.vars.len() implies shows_cell(keys, t.vars[c], row[c], #[trigger] ms[c]) by {
            let id = row[c];
            if id != NULL_ID && id < keys.len() {
                assert(term_fields(result_term(keys, id)) =~= field_list(
                    key_value(keys[id as int]),
                    key_kind(keys[id as int]),
                ));
            }
        }
        assert(object_text(ms).push('\n') =~= object_text(ms) + "\n"@);
        assert(shows_row(keys, t.vars, row, ms));
        assert(out[1 + i] == object_text(ms) + "\n"@);
    }
}

} // verus!
