//! What the endpoint answers: which request was made, how it is run, and the lines
//! of a stream of solutions.

use crate::hypertrie::dictionary::Dictionary;
use crate::hypertrie::NULL_ID;
use crate::sparql::algebra::texts;
use crate::sparql::json::{kind_name, name_kind, result_term, term_of, ResultTerm, ResultTermView};
use crate::sparql::run::{asks_inference, normalize_query, request_text};
use crate::sparql::tables::{copy_vars, Solutions, Table};
use crate::text::{chars_of, owned, parse_usize, parsed_usize};
use serde_json::{Map as JsonMap, Value};
use vstd::prelude::*;

verus! {

// --- Requests ---------------------------------------------------------------------------

/// The parameters of a query.
#[derive(Debug)]
pub struct SparqlQueryParams {
    pub query: Option<String>,
    pub infer: Option<String>,
}

/// The parameters of an update.
#[derive(Debug)]
pub struct UpdateParams {
    pub update: Option<String>,
}

pub open spec fn opt_text(s: Option<String>) -> Option<Seq<char>> {
    match s {
        Some(t) => Some(t@),
        None => None,
    }
}

/// A query as it was asked.
#[derive(Debug)]
pub struct QueryRequest {
    pub text: String,
    /// Whether inference was asked for.
    pub infer: bool,
}

/// The query of a request. A request without a text is refused.
pub fn query_request(params: SparqlQueryParams, body: String) -> (r: Result<QueryRequest, String>)
    ensures
        match r {
            Ok(q) => q.text@ == request_text(opt_text(params.query), body@) && q.text@.len() > 0
                && q.infer == (opt_text(params.infer) == Some("rdfs"@)),
            Err(e) => e@ == "Missing query parameter or empty body"@ && request_text(
                opt_text(params.query),
                body@,
            ).len() == 0,
        },
{
    let infer: bool = match &params.infer {
        Some(s) => asks_inference(Some(s.as_str())),
        None => false,
    };
    let text: String = normalize_query(params.query, body);
    if is_blank(text.as_str()) {
        return Err(owned("Missing query parameter or empty body"));
    }
    Ok(QueryRequest { text, infer })
}

/// The update of a request. A request without a text is refused.
pub fn update_request(params: UpdateParams, body: String) -> (r: Result<String, String>)
    ensures
        match r {
            Ok(text) => text@ == request_text(opt_text(params.update), body@) && text@.len() > 0,
            Err(e) => e@ == "Missing update parameter or empty body"@ && request_text(
                opt_text(params.update),
                body@,
            ).len() == 0,
        },
{
    let text: String = normalize_query(params.update, body);
    if is_blank(text.as_str()) {
        return Err(owned("Missing update parameter or empty body"));
    }
    Ok(text)
}

fn is_blank(s: &str) -> (r: bool)
    ensures
        r == (s@.len() == 0),
{
    let cs: Vec<char> = chars_of(s);
    cs.len() == 0
}

/// How many bytes the body of a request may have, unless it is set.
pub const DEFAULT_MAX_BODY: usize = 67_108_864;

/// How many bytes the body of a request may have, from the text of the setting.
pub fn max_body_bytes(setting: Option<&str>) -> (n: usize)
    ensures
        n == (match setting {
            Some(s) => match parsed_usize(s@) {
                Some(k) => k,
                None => DEFAULT_MAX_BODY,
            },
            None => DEFAULT_MAX_BODY,
        }),
{
    match setting {
        Some(s) => match parse_usize(s) {
            Some(k) => k,
            None => DEFAULT_MAX_BODY,
        },
        None => DEFAULT_MAX_BODY,
    }
}

// --- Streams ----------------------------------------------------------------------------

/// A value in a line that has no members of its own.
#[derive(Debug)]
pub enum Leaf {
    Null,
    Text(String),
    Texts(Vec<String>),
}

pub enum LeafView {
    Null,
    Text(Seq<char>),
    Texts(Seq<Seq<char>>),
}

/// A value in a line.
#[derive(Debug)]
pub enum Member {
    Leaf(Leaf),
    Fields(Vec<(String, Leaf)>),
}

pub enum MemberView {
    Leaf(LeafView),
    Fields(Seq<(Seq<char>, LeafView)>),
}

impl View for Leaf {
    type V = LeafView;

    open spec fn view(&self) -> LeafView {
        match self {
            Leaf::Null => LeafView::Null,
            Leaf::Text(s) => LeafView::Text(s@),
            Leaf::Texts(v) => LeafView::Texts(texts(v@)),
        }
    }
}

pub open spec fn fields_view(v: Seq<(String, Leaf)>) -> Seq<(Seq<char>, LeafView)> {
    v.map_values(|f: (String, Leaf)| (f.0@, f.1@))
}

impl View for Member {
    type V = MemberView;

    open spec fn view(&self) -> MemberView {
        match self {
            Member::Leaf(l) => MemberView::Leaf(l@),
            Member::Fields(v) => MemberView::Fields(fields_view(v@)),
        }
    }
}

pub open spec fn members_view(v: Seq<(String, Member)>) -> Seq<(Seq<char>, MemberView)> {
    v.map_values(|m: (String, Member)| (m.0@, m.1@))
}

/// The JSON text of an object, as `serde_json` writes it.
pub uninterp spec fn object_text(members: Seq<(Seq<char>, MemberView)>) -> Seq<char>;

/// `serde_json::to_string`: the JSON text of the object with the members.
#[verifier::external_body]
fn object_line(members: Vec<(String, Member)>) -> (r: String)
    ensures
        r@ == object_text(members_view(members@)),
{
    let leaf = |l: Leaf| match l {
        Leaf::Null => Value::Null,
        Leaf::Text(s) => Value::from(s),
        Leaf::Texts(v) => Value::from(v),
    };
    let value = |m: Member| match m {
        Member::Leaf(l) => leaf(l),
        Member::Fields(fs) => Value::Object(fs.into_iter().map(|(k, l)| (k, leaf(l))).collect()),
    };
    let object: JsonMap<String, Value> = members.into_iter().map(|(k, m)| (k, value(m))).collect();
    serde_json::to_string(&object).unwrap_or_default()
}

/// The fields of a term.
pub open spec fn term_fields(t: ResultTermView) -> Seq<(Seq<char>, LeafView)> {
    seq![("type"@, LeafView::Text(kind_name(t.kind))), ("value"@, LeafView::Text(t.value))]
        + more_fields("datatype"@, t.datatype) + more_fields("xml:lang"@, t.lang)
}

/// A field, if there is a value for it.
pub open spec fn more_fields(name: Seq<char>, value: Option<Seq<char>>) -> Seq<(Seq<char>, LeafView)> {
    match value {
        Some(v) => seq![(name, LeafView::Text(v))],
        None => Seq::empty(),
    }
}

/// What a row shows for an identifier.
pub open spec fn cell_member(keys: Seq<Seq<char>>, id: u32) -> MemberView {
    if id == NULL_ID {
        MemberView::Leaf(LeafView::Null)
    } else {
        MemberView::Fields(term_fields(result_term(keys, id)))
    }
}

/// A row of a stream: every variable with its term, or null where it is unbound.
pub open spec fn row_members(keys: Seq<Seq<char>>, vars: Seq<Seq<char>>, row: Seq<u32>) -> Seq<
    (Seq<char>, MemberView),
> {
    Seq::new(vars.len(), |i: int| (vars[i], cell_member(keys, row[i])))
}

/// The first line of a stream: the variables.
pub open spec fn head_members(vars: Seq<Seq<char>>) -> Seq<(Seq<char>, MemberView)> {
    seq![("head"@, MemberView::Fields(seq![("vars"@, LeafView::Texts(vars))]))]
}

/// The only line of a stream that failed.
pub open spec fn error_members(e: Seq<char>) -> Seq<(Seq<char>, MemberView)> {
    seq![("error"@, MemberView::Leaf(LeafView::Text(e)))]
}

pub open spec fn line(members: Seq<(Seq<char>, MemberView)>) -> Seq<char> {
    object_text(members).push('\n')
}

/// The lines of a stream.
pub open spec fn stream(keys: Seq<Seq<char>>, r: Result<Table, Seq<char>>) -> Seq<Seq<char>> {
    match r {
        Ok(t) => seq![line(head_members(t.vars))] + Seq::new(
            t.rows.len(),
            |i: int| line(row_members(keys, t.vars, t.rows[i])),
        ),
        Err(e) => seq![line(error_members(e))],
    }
}

fn finish(members: Vec<(String, Member)>) -> (r: String)
    ensures
        r@ == line(members_view(members@)),
{
    let mut out: String = object_line(members);
    out.push('\n');
    out
}

fn field(name: &str, value: String) -> (r: (String, Leaf))
    ensures
        (r.0@, r.1@) == (name@, LeafView::Text(value@)),
{
    (owned(name), Leaf::Text(value))
}

/// The fields of a term.
pub fn make_fields(t: ResultTerm) -> (r: Vec<(String, Leaf)>)
    ensures
        fields_view(r@) == term_fields(t@),
{
    let mut r: Vec<(String, Leaf)> = Vec::new();
    r.push(field("type", owned(name_kind(t.kind))));
    r.push(field("value", t.value));
    let ghost first = fields_view(r@);
    if let Some(d) = t.datatype {
        r.push(field("datatype", d));
    }
    assert(fields_view(r@) =~= first + more_fields("datatype"@, t@.datatype));
    let ghost second = fields_view(r@);
    if let Some(l) = t.lang {
        r.push(field("xml:lang", l));
    }
    assert(fields_view(r@) =~= second + more_fields("xml:lang"@, t@.lang));
    assert(first =~= seq![
        ("type"@, LeafView::Text(kind_name(t.kind))),
        ("value"@, LeafView::Text(t.value@)),
    ]);
    r
}

/// What a row shows for an identifier.
pub fn make_cell(id: u32, dict: &Dictionary) -> (m: Member)
    requires
        dict.wf(),
    ensures
        m@ == cell_member(dict.keys(), id),
{
    if id == NULL_ID {
        Member::Leaf(Leaf::Null)
    } else {
        Member::Fields(make_fields(term_of(id, dict)))
    }
}

/// The first line of a stream.
pub fn stream_head(result: &Solutions) -> (r: String)
    ensures
        r@ == line(head_members(result@.vars)),
{
    let vars: Vec<String> = copy_vars(&result.vars);
    let mut inner: Vec<(String, Leaf)> = Vec::new();
    inner.push((owned("vars"), Leaf::Texts(vars)));
    assert(fields_view(inner@) =~= seq![("vars"@, LeafView::Texts(result@.vars))]);
    let mut members: Vec<(String, Member)> = Vec::new();
    members.push((owned("head"), Member::Fields(inner)));
    assert(members_view(members@) =~= head_members(result@.vars));
    finish(members)
}

/// The line of row `i` of a stream.
pub fn stream_row(result: &Solutions, i: usize, dict: &Dictionary) -> (r: String)
    requires
        result.wf(),
        dict.wf(),
        i < result@.rows.len(),
    ensures
        r@ == line(row_members(dict.keys(), result@.vars, result@.rows[i as int])),
{
    let row: &[u32] = result.rows.row(i);
    let n: usize = result.vars.len();
    let ghost want = row_members(dict.keys(), result@.vars, row@);
    let mut members: Vec<(String, Member)> = Vec::new();
    let mut k: usize = 0;
    assert(result@.vars.len() == n);
    while k < n
        invariant
            dict.wf(),
            n == result.vars@.len(),
            n == result@.vars.len(),
            row@.len() == n,
            want == row_members(dict.keys(), result@.vars, row@),
            k <= n,
            members_view(members@) == want.take(k as int),
        decreases n - k,
    {
        let ghost before = members_view(members@);
        members.push((result.vars[k].clone(), make_cell(row[k], dict)));
        k += 1;
        assert(members_view(members@) =~= before.push(want[k - 1]));
        assert(members_view(members@) =~= want.take(k as int));
    }
    assert(want.take(k as int) =~= want);
    finish(members)
}

/// The line of a stream that failed.
pub fn stream_error(e: &str) -> (r: String)
    ensures
        r@ == line(error_members(e@)),
{
    let mut members: Vec<(String, Member)> = Vec::new();
    members.push((owned("error"), Member::Leaf(Leaf::Text(owned(e)))));
    assert(members_view(members@) =~= error_members(e@));
    finish(members)
}

/// Every line of a stream is one that the functions here make: the head, then a
/// line for each row, or the error alone.
pub proof fn law_stream(keys: Seq<Seq<char>>, t: Table, i: int)
    requires
        0 <= i < t.rows.len(),
    ensures
        stream(keys, Ok(t)).len() == t.rows.len() + 1,
        stream(keys, Ok(t))[0] == line(head_members(t.vars)),
        stream(keys, Ok(t))[i + 1] == line(row_members(keys, t.vars, t.rows[i])),
{
}

} // verus!
