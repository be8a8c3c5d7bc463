//! Queries and updates from their text.
//!
//! The text is parsed by the `spargebra` crate, whose algebra comes back as an
//! S-expression. Everything after that is verified: each function here that takes
//! a text makes the call and hands the S-expression to one that takes it.

use crate::hypertrie::engine::HybridEngine;
use crate::hypertrie::query::TripleStore;
use crate::inference::{rewrite, rewritten};
use crate::sparql::algebra::{Pattern, PatternView, Query, QueryView, UpdateOpView};
use crate::sparql::json::{boolean_json, table_json, write_boolean, write_sparql_json};
use crate::sparql::numbers::{numbers_ok, NumberCall, NumberReply};
use crate::sparql::reader::{read_query, read_update, text_query, text_update};
use crate::sparql::solve::{
    answered, evaluate_select, evaluate_select_mut, setting_of, Setting,
};
use crate::sparql::solve_laws::{adds_terms, contains_extend};
use crate::sparql::tables::{outcome, Outcome, Solutions, Table};
use crate::sparql::update::{apply_update, triples_after, update_changes, update_records};
use crate::text::{chars_of, owned, same_text, string_of, trim, trimmed};
use crate::wal::{log_bytes, RecordView, Wal};
use spargebra::SparqlParser;
use vstd::prelude::*;

verus! {

// --- Parsing ---------------------------------------------------------------------------

/// An S-expression or an error text.
pub type Reading = Result<Seq<char>, Seq<char>>;

pub open spec fn reading(r: Result<String, String>) -> Reading {
    match r {
        Ok(s) => Ok(s@),
        Err(e) => Err(e@),
    }
}

/// What `SparqlParser::parse_query` may make of a text: the S-expressions of its
/// algebra, which differ in the labels of generated blank nodes, or an error.
pub uninterp spec fn query_readings(text: Seq<char>) -> Set<Reading>;

/// What `SparqlParser::parse_update` may make of a text.
pub uninterp spec fn update_readings(text: Seq<char>) -> Set<Reading>;

/// `SparqlParser::parse_query` and `Query::to_sse`. Generated blank nodes have
/// random labels, so the result is one of several; which ones a text can give is
/// left unsaid.
#[verifier::external_body]
fn parse_query(text: &str) -> (r: Result<String, String>)
    ensures
        query_readings(text@).contains(reading(r)),
{
    match SparqlParser::new().parse_query(text) {
        Ok(q) => Ok(q.to_sse()),
        Err(e) => Err(e.to_string()),
    }
}

/// `SparqlParser::parse_update` and `Update::to_sse`, in the same way.
#[verifier::external_body]
fn parse_update(text: &str) -> (r: Result<String, String>)
    ensures
        update_readings(text@).contains(reading(r)),
{
    match SparqlParser::new().parse_update(text) {
        Ok(u) => Ok(u.to_sse()),
        Err(e) => Err(e.to_string()),
    }
}

// --- Answers ---------------------------------------------------------------------------

/// The text of the error for an algebra that cannot be read.
pub open spec fn unreadable_text() -> Seq<char> {
    "Unsupported query algebra"@
}

/// A pattern, with inference if it is asked for.
pub open spec fn with_inference(p: PatternView, infer: bool) -> PatternView {
    if infer {
        rewritten(p, 0).0
    } else {
        p
    }
}

/// The answer to a query.
#[derive(Debug)]
pub enum Answer {
    Rows(Solutions),
    Truth(bool),
    /// The query has another form.
    Other,
}

#[verifier::ext_equal]
pub enum AnswerView {
    Rows(Table),
    Truth(bool),
    Other,
}

impl View for Answer {
    type V = AnswerView;

    open spec fn view(&self) -> AnswerView {
        match self {
            Answer::Rows(t) => AnswerView::Rows(t@),
            Answer::Truth(b) => AnswerView::Truth(*b),
            Answer::Other => AnswerView::Other,
        }
    }
}

/// An answer or an error text.
pub type Answered = Result<AnswerView, Seq<char>>;

pub open spec fn answer_of(r: Result<Answer, String>) -> Answered {
    match r {
        Ok(a) => Ok(a@),
        Err(e) => Err(e@),
    }
}

/// What an algebra is answered, and the dictionary after that.
pub open spec fn answer(s: Setting, keys: Seq<Seq<char>>, sse: Seq<char>, infer: bool) -> (
    Answered,
    Seq<Seq<char>>,
) {
    match text_query(sse) {
        None => (Err(unreadable_text()), keys),
        Some(QueryView::Other) => (Ok(AnswerView::Other), keys),
        Some(QueryView::Select(p)) => {
            let (r, k) = answered(s, keys, with_inference(p, infer));
            (
                match r {
                    Ok(t) => Ok(AnswerView::Rows(t)),
                    Err(e) => Err(e),
                },
                k,
            )
        },
        Some(QueryView::Ask(p)) => {
            let (r, k) = answered(s, keys, with_inference(p, infer));
            (
                match r {
                    Ok(t) => Ok(AnswerView::Truth(t.rows.len() > 0)),
                    Err(e) => Err(e),
                },
                k,
            )
        },
    }
}

fn infer_pattern(p: Pattern, infer: bool) -> (r: Pattern)
    ensures
        r.view() == with_inference(p.view(), infer),
{
    if infer {
        rewrite(p)
    } else {
        p
    }
}

/// Answers an algebra without a change to the store.
pub fn answer_sse<F: Fn(NumberCall) -> NumberReply>(
    store: &TripleStore,
    engine: &HybridEngine,
    sse: &str,
    infer: bool,
    numbers: &F,
) -> (res: Result<Answer, String>)
    requires
        store.wf(),
        numbers_ok(*numbers),
    ensures
        (answer_of(res), store.dict.keys()) == answer(
            setting_of(store.index, *engine, *numbers, false),
            store.dict.keys(),
            sse@,
            infer,
        ),
        res matches Ok(Answer::Rows(t)) ==> t.wf(),
{
    match read_query(sse) {
        None => Err(owned("Unsupported query algebra")),
        Some(Query::Other) => Ok(Answer::Other),
        Some(Query::Select(p)) => {
            let q: Pattern = infer_pattern(p, infer);
            match evaluate_select(&q, store, engine, numbers) {
                Ok(t) => Ok(Answer::Rows(t)),
                Err(e) => Err(e),
            }
        },
        Some(Query::Ask(p)) => {
            let q: Pattern = infer_pattern(p, infer);
            match evaluate_select(&q, store, engine, numbers) {
                Ok(t) => Ok(Answer::Truth(t.rows.n_rows() > 0)),
                Err(e) => Err(e),
            }
        },
    }
}

/// Answers an algebra. Computed values join the dictionary.
pub fn answer_sse_mut<F: Fn(NumberCall) -> NumberReply>(
    store: &mut TripleStore,
    engine: &HybridEngine,
    sse: &str,
    numbers: &F,
) -> (res: Result<Answer, String>)
    requires
        old(store).wf(),
        numbers_ok(*numbers),
    ensures
        final(store).wf(),
        final(store).index == old(store).index,
        (answer_of(res), final(store).dict.keys()) == answer(
            setting_of(old(store).index, *engine, *numbers, true),
            old(store).dict.keys(),
            sse@,
            false,
        ),
        res matches Ok(Answer::Rows(t)) ==> t.wf(),
{
    match read_query(sse) {
        None => Err(owned("Unsupported query algebra")),
        Some(Query::Other) => Ok(Answer::Other),
        Some(Query::Select(p)) => match evaluate_select_mut(&p, store, engine, numbers) {
            Ok(t) => Ok(Answer::Rows(t)),
            Err(e) => Err(e),
        },
        Some(Query::Ask(p)) => match evaluate_select_mut(&p, store, engine, numbers) {
            Ok(t) => Ok(Answer::Truth(t.rows.n_rows() > 0)),
            Err(e) => Err(e),
        },
    }
}

// --- Documents -------------------------------------------------------------------------

/// The JSON document of an answer.
pub open spec fn document(keys: Seq<Seq<char>>, a: Answered) -> Reading {
    match a {
        Ok(AnswerView::Rows(t)) => Ok(table_json(keys, t)),
        Ok(AnswerView::Truth(b)) => Ok(boolean_json(b)),
        Ok(AnswerView::Other) => Err("Only SELECT and ASK queries are supported"@),
        Err(e) => Err(e),
    }
}

/// What the readings of a text are answered by: an error is handed on.
pub open spec fn document_of(
    s: Setting,
    keys: Seq<Seq<char>>,
    x: Reading,
    infer: bool,
) -> (Reading, Seq<Seq<char>>) {
    match x {
        Ok(sse) => {
            let (a, k) = answer(s, keys, sse, infer);
            (document(k, a), k)
        },
        Err(e) => (Err(e), keys),
    }
}

fn write_answer(a: Result<Answer, String>, dict: &crate::hypertrie::dictionary::Dictionary) -> (res:
    Result<String, String>)
    requires
        dict.wf(),
        a matches Ok(Answer::Rows(t)) ==> t.wf(),
    ensures
        reading(res) == document(dict.keys(), answer_of(a)),
{
    match a {
        Ok(Answer::Rows(t)) => Ok(write_sparql_json(&t, dict)),
        Ok(Answer::Truth(b)) => Ok(write_boolean(b)),
        Ok(Answer::Other) => Err(owned("Only SELECT and ASK queries are supported")),
        Err(e) => Err(e),
    }
}

/// Answers a query by a JSON document, without a change to the store.
pub fn execute_sparql<F: Fn(NumberCall) -> NumberReply>(
    store: &TripleStore,
    engine: &HybridEngine,
    query_str: &str,
    numbers: &F,
) -> (res: Result<String, String>)
    requires
        store.wf(),
        numbers_ok(*numbers),
    ensures
        exists|x: Reading| #[trigger]
            query_readings(query_str@).contains(x) && (reading(res), store.dict.keys())
                == document_of(
                setting_of(store.index, *engine, *numbers, false),
                store.dict.keys(),
                x,
                false,
            ),
{
    let x: Result<String, String> = parse_query(query_str);
    let ghost xv = reading(x);
    let res: Result<String, String> = match x {
        Ok(sse) => execute_algebra(store, engine, sse.as_str(), false, numbers),
        Err(e) => Err(e),
    };
    assert(query_readings(query_str@).contains(xv));
    res
}

/// Answers an algebra by a JSON document, with or without inference.
pub fn execute_algebra<F: Fn(NumberCall) -> NumberReply>(
    store: &TripleStore,
    engine: &HybridEngine,
    sse: &str,
    infer: bool,
    numbers: &F,
) -> (res: Result<String, String>)
    requires
        store.wf(),
        numbers_ok(*numbers),
    ensures
        (reading(res), store.dict.keys()) == document_of(
            setting_of(store.index, *engine, *numbers, false),
            store.dict.keys(),
            Ok(sse@),
            infer,
        ),
{
    let a: Result<Answer, String> = answer_sse(store, engine, sse, infer, numbers);
    write_answer(a, &store.dict)
}

/// Answers a query by a JSON document. Computed values join the dictionary.
pub fn execute_sparql_bind<F: Fn(NumberCall) -> NumberReply>(
    store: &mut TripleStore,
    engine: &HybridEngine,
    query_str: &str,
    numbers: &F,
) -> (res: Result<String, String>)
    requires
        old(store).wf(),
        numbers_ok(*numbers),
    ensures
        final(store).wf(),
        final(store).index == old(store).index,
        exists|x: Reading| #[trigger]
            query_readings(query_str@).contains(x) && (reading(res), final(store).dict.keys())
                == document_of(
                setting_of(old(store).index, *engine, *numbers, true),
                old(store).dict.keys(),
                x,
                false,
            ),
{
    let x: Result<String, String> = parse_query(query_str);
    let ghost xv = reading(x);
    let res: Result<String, String> = match x {
        Ok(sse) => execute_algebra_bind(store, engine, sse.as_str(), numbers),
        Err(e) => Err(e),
    };
    assert(query_readings(query_str@).contains(xv));
    res
}

/// Answers an algebra by a JSON document. Computed values join the dictionary.
pub fn execute_algebra_bind<F: Fn(NumberCall) -> NumberReply>(
    store: &mut TripleStore,
    engine: &HybridEngine,
    sse: &str,
    numbers: &F,
) -> (res: Result<String, String>)
    requires
        old(store).wf(),
        numbers_ok(*numbers),
    ensures
        final(store).wf(),
        final(store).index == old(store).index,
        (reading(res), final(store).dict.keys()) == document_of(
            setting_of(old(store).index, *engine, *numbers, true),
            old(store).dict.keys(),
            Ok(sse@),
            false,
        ),
{
    let a: Result<Answer, String> = answer_sse_mut(store, engine, sse, numbers);
    write_answer(a, &store.dict)
}

/// Answers a query by a JSON document, with what follows from the schema.
pub fn execute_sparql_infer<F: Fn(NumberCall) -> NumberReply>(
    store: &TripleStore,
    engine: &HybridEngine,
    query_str: &str,
    numbers: &F,
) -> (res: Result<String, String>)
    requires
        store.wf(),
        numbers_ok(*numbers),
    ensures
        exists|x: Reading| #[trigger]
            query_readings(query_str@).contains(x) && (reading(res), store.dict.keys())
                == document_of(
                setting_of(store.index, *engine, *numbers, false),
                store.dict.keys(),
                x,
                true,
            ),
{
    let x: Result<String, String> = parse_query(query_str);
    let ghost xv = reading(x);
    let res: Result<String, String> = match x {
        Ok(sse) => execute_algebra(store, engine, sse.as_str(), true, numbers),
        Err(e) => Err(e),
    };
    assert(query_readings(query_str@).contains(xv));
    res
}

// --- Counts ----------------------------------------------------------------------------

/// What a query is counted to.
#[derive(Debug, Clone, Copy, PartialEq, Eq, Structural)]
pub enum Tally {
    Count(usize),
    Boolean(bool),
}

/// A tally or an error text.
pub type Tallied = Result<Tally, Seq<char>>;

pub open spec fn tally_of(r: Result<Tally, String>) -> Tallied {
    match r {
        Ok(t) => Ok(t),
        Err(e) => Err(e@),
    }
}

/// The tally of an answer.
pub open spec fn tallied(a: Answered) -> Tallied {
    match a {
        Ok(AnswerView::Rows(t)) => Ok(Tally::Count(t.rows.len() as usize)),
        Ok(AnswerView::Truth(b)) => Ok(Tally::Boolean(b)),
        Ok(AnswerView::Other) => Err("Only SELECT and ASK queries are supported for /count"@),
        Err(e) => Err(e),
    }
}

/// What the readings of a text are counted to.
pub open spec fn tally_reading(
    s: Setting,
    keys: Seq<Seq<char>>,
    x: Reading,
    infer: bool,
) -> (Tallied, Seq<Seq<char>>) {
    match x {
        Ok(sse) => {
            let (a, k) = answer(s, keys, sse, infer);
            (tallied(a), k)
        },
        Err(e) => (Err(e), keys),
    }
}

fn count_answer(a: Result<Answer, String>) -> (res: Result<Tally, String>)
    ensures
        tally_of(res) == tallied(answer_of(a)),
{
    match a {
        Ok(Answer::Rows(t)) => Ok(Tally::Count(t.rows.n_rows())),
        Ok(Answer::Truth(b)) => Ok(Tally::Boolean(b)),
        Ok(Answer::Other) => Err(owned("Only SELECT and ASK queries are supported for /count")),
        Err(e) => Err(e),
    }
}

/// Counts the solutions of a query, with or without inference.
pub fn execute_count<F: Fn(NumberCall) -> NumberReply>(
    store: &TripleStore,
    engine: &HybridEngine,
    query_str: &str,
    infer: bool,
    numbers: &F,
) -> (res: Result<Tally, String>)
    requires
        store.wf(),
        numbers_ok(*numbers),
    ensures
        exists|x: Reading| #[trigger]
            query_readings(query_str@).contains(x) && (tally_of(res), store.dict.keys())
                == tally_reading(
                setting_of(store.index, *engine, *numbers, false),
                store.dict.keys(),
                x,
                infer,
            ),
{
    let x: Result<String, String> = parse_query(query_str);
    let ghost xv = reading(x);
    let res: Result<Tally, String> = match x {
        Ok(sse) => count_answer(answer_sse(store, engine, sse.as_str(), infer, numbers)),
        Err(e) => Err(e),
    };
    assert(query_readings(query_str@).contains(xv));
    res
}

/// Counts the solutions of a query. Computed values join the dictionary.
pub fn execute_count_bind<F: Fn(NumberCall) -> NumberReply>(
    store: &mut TripleStore,
    engine: &HybridEngine,
    query_str: &str,
    numbers: &F,
) -> (res: Result<Tally, String>)
    requires
        old(store).wf(),
        numbers_ok(*numbers),
    ensures
        final(store).wf(),
        final(store).index == old(store).index,
        exists|x: Reading| #[trigger]
            query_readings(query_str@).contains(x) && (tally_of(res), final(store).dict.keys())
                == tally_reading(
                setting_of(old(store).index, *engine, *numbers, true),
                old(store).dict.keys(),
                x,
                false,
            ),
{
    let x: Result<String, String> = parse_query(query_str);
    let ghost xv = reading(x);
    let res: Result<Tally, String> = match x {
        Ok(sse) => count_answer(answer_sse_mut(store, engine, sse.as_str(), numbers)),
        Err(e) => Err(e),
    };
    assert(query_readings(query_str@).contains(xv));
    res
}

// --- Solutions -------------------------------------------------------------------------

/// The solutions that an algebra gives; only a selection has some.
pub open spec fn selection(s: Setting, keys: Seq<Seq<char>>, x: Reading, infer: bool) -> (
    Outcome,
    Seq<Seq<char>>,
) {
    match x {
        Ok(sse) => match text_query(sse) {
            None => (Err(unreadable_text()), keys),
            Some(QueryView::Select(p)) => answered(s, keys, with_inference(p, infer)),
            Some(_) => (Err("Only SELECT queries are supported here"@), keys),
        },
        Err(e) => (Err(e), keys),
    }
}

/// The solutions of a selection, with or without inference.
pub fn select_rows<F: Fn(NumberCall) -> NumberReply>(
    store: &TripleStore,
    engine: &HybridEngine,
    query_str: &str,
    infer: bool,
    numbers: &F,
) -> (res: Result<Solutions, String>)
    requires
        store.wf(),
        numbers_ok(*numbers),
    ensures
        exists|x: Reading| #[trigger]
            query_readings(query_str@).contains(x) && (outcome(res), store.dict.keys())
                == selection(
                setting_of(store.index, *engine, *numbers, false),
                store.dict.keys(),
                x,
                infer,
            ),
        res is Ok ==> (res->Ok_0).wf(),
{
    let x: Result<String, String> = parse_query(query_str);
    let ghost xv = reading(x);
    assert(query_readings(query_str@).contains(xv));
    match x {
        Ok(sse) => match read_query(sse.as_str()) {
            None => Err(owned("Unsupported query algebra")),
            Some(Query::Select(p)) => {
                let q: Pattern = infer_pattern(p, infer);
                evaluate_select(&q, store, engine, numbers)
            },
            Some(_) => Err(owned("Only SELECT queries are supported here")),
        },
        Err(e) => Err(e),
    }
}

/// The solutions of a selection. Computed values join the dictionary.
pub fn select_rows_bind<F: Fn(NumberCall) -> NumberReply>(
    store: &mut TripleStore,
    engine: &HybridEngine,
    query_str: &str,
    numbers: &F,
) -> (res: Result<Solutions, String>)
    requires
        old(store).wf(),
        numbers_ok(*numbers),
    ensures
        final(store).wf(),
        final(store).index == old(store).index,
        exists|x: Reading| #[trigger]
            query_readings(query_str@).contains(x) && (outcome(res), final(store).dict.keys())
                == selection(
                setting_of(old(store).index, *engine, *numbers, true),
                old(store).dict.keys(),
                x,
                false,
            ),
        res is Ok ==> (res->Ok_0).wf(),
{
    let x: Result<String, String> = parse_query(query_str);
    let ghost xv = reading(x);
    assert(query_readings(query_str@).contains(xv));
    match x {
        Ok(sse) => match read_query(sse.as_str()) {
            None => Err(owned("Unsupported query algebra")),
            Some(Query::Select(p)) => evaluate_select_mut(&p, store, engine, numbers),
            Some(_) => Err(owned("Only SELECT queries are supported here")),
        },
        Err(e) => Err(e),
    }
}

/// The three ways to ask agree: of a selection, the document shows the rows of the
/// table, the stream gives the same table, and the tally is the number of its rows;
/// an error is the same everywhere.
pub proof fn law_endpoints_agree(s: Setting, keys: Seq<Seq<char>>, sse: Seq<char>, infer: bool)
    requires
        text_query(sse) is Some,
        (text_query(sse)->0) is Select,
    ensures
        match selection(s, keys, Ok(sse), infer).0 {
            Ok(t) => document_of(s, keys, Ok(sse), infer).0 == Ok::<Seq<char>, Seq<char>>(
                table_json(selection(s, keys, Ok(sse), infer).1, t),
            ) && tally_reading(s, keys, Ok(sse), infer).0 == Ok::<Tally, Seq<char>>(
                Tally::Count(t.rows.len() as usize),
            ),
            Err(e) => document_of(s, keys, Ok(sse), infer).0 == Err::<Seq<char>, Seq<char>>(e)
                && tally_reading(s, keys, Ok(sse), infer).0 == Err::<Tally, Seq<char>>(e),
        },
{
}

// --- Requests --------------------------------------------------------------------------

/// The text of a request: the parameter, unless it is blank, else the body,
/// without white space around it.
pub open spec fn request_text(param: Option<Seq<char>>, body: Seq<char>) -> Seq<char> {
    match param {
        Some(s) => if trimmed(s).len() > 0 {
            trimmed(s)
        } else {
            trimmed(body)
        },
        None => trimmed(body),
    }
}

fn trim_text(s: &str) -> (r: String)
    ensures
        r@ == trimmed(s@),
{
    let cs: Vec<char> = chars_of(s);
    string_of(trim(cs.as_slice()))
}

/// The text of a request.
pub fn normalize_query(query_param: Option<String>, body: String) -> (r: String)
    ensures
        r@ == request_text(
            match query_param {
                Some(s) => Some(s@),
                None => None,
            },
            body@,
        ),
{
    if let Some(s) = query_param {
        let t: Vec<char> = chars_of(s.as_str());
        let short: &[char] = trim(t.as_slice());
        if short.len() > 0 {
            return string_of(short);
        }
    }
    trim_text(body.as_str())
}

/// Whether an algebra may add terms to the dictionary.
pub open spec fn sse_adds_terms(sse: Seq<char>) -> bool {
    match text_query(sse) {
        Some(QueryView::Select(p)) => adds_terms(p),
        Some(QueryView::Ask(p)) => adds_terms(p),
        _ => false,
    }
}

/// Whether an algebra may add terms to the dictionary.
pub fn algebra_needs_write(sse: &str) -> (r: bool)
    ensures
        r == sse_adds_terms(sse@),
{
    match read_query(sse) {
        Some(Query::Select(p)) => contains_extend(&p),
        Some(Query::Ask(p)) => contains_extend(&p),
        _ => false,
    }
}

/// Whether a query may add terms to the dictionary. A text that is not a query
/// is refused by evaluation, and does not.
pub fn query_needs_write(query_str: &str) -> (r: bool)
    ensures
        exists|x: Reading| #[trigger]
            query_readings(query_str@).contains(x) && r == (match x {
                Ok(sse) => sse_adds_terms(sse),
                Err(_) => false,
            }),
{
    let x: Result<String, String> = parse_query(query_str);
    let ghost xv = reading(x);
    assert(query_readings(query_str@).contains(xv));
    match x {
        Ok(sse) => algebra_needs_write(sse.as_str()),
        Err(_) => false,
    }
}

/// How a query is run.
#[derive(Debug, Clone, Copy, PartialEq, Eq, Structural)]
pub enum Access {
    /// On a store that is only read.
    Read,
    /// On a store that is only read, with inference.
    Infer,
    /// On a store that may get new terms.
    Write,
}

/// How a query is run: with inference if the request asks for `rdfs`, else by
/// whether it may add terms.
pub open spec fn access_for(infer: Option<Seq<char>>, adds: bool) -> Access {
    if infer == Some("rdfs"@) {
        Access::Infer
    } else if adds {
        Access::Write
    } else {
        Access::Read
    }
}

/// Whether a request asks for inference.
pub fn asks_inference(infer: Option<&str>) -> (r: bool)
    ensures
        r == (infer is Some && (infer->0)@ == "rdfs"@),
{
    match infer {
        Some(s) => same_text(s, "rdfs"),
        None => false,
    }
}

/// How a query is run.
pub fn choose_access(infer: Option<&str>, query_str: &str) -> (r: Access)
    ensures
        exists|x: Reading| #[trigger]
            query_readings(query_str@).contains(x) && r == access_for(
                match infer {
                    Some(s) => Some(s@),
                    None => None,
                },
                match x {
                    Ok(sse) => sse_adds_terms(sse),
                    Err(_) => false,
                },
            ),
{
    let adds: bool = query_needs_write(query_str);
    if asks_inference(infer) {
        Access::Infer
    } else if adds {
        Access::Write
    } else {
        Access::Read
    }
}

// --- Updates ---------------------------------------------------------------------------

/// The operations that a reading asks for, or an error.
pub open spec fn update_ops(x: Reading) -> Result<Seq<UpdateOpView>, Seq<char>> {
    match x {
        Ok(sse) => match text_update(sse) {
            Some(ops) => Ok(ops),
            None => Err(unreadable_text()),
        },
        Err(e) => Err(e),
    }
}

/// What an update did to a store and to the log.
pub open spec fn updated(
    before: TripleStore,
    after: TripleStore,
    wal0: Wal,
    wal1: Wal,
    x: Reading,
    res: Result<(), String>,
) -> bool {
    match update_ops(x) {
        Ok(ops) => {
            let (want, keys) = update_changes(before.dict.keys(), before.triples().len(), ops);
            &&& after.dict.keys() == keys
            &&& match res {
                Ok(_) => want is Ok && after.triples() == triples_after(
                    before.dict.keys(),
                    before.triples(),
                    ops,
                    ops.len() as int,
                ) && wal1.logged == keys.len() && wal1.pending@ == wal0.pending@ + log_bytes(
                    update_records(wal0.logged as nat, before.dict.keys(), want->Ok_0),
                ),
                Err(e) => want == Err::<Seq<RecordView>, Seq<char>>(e@) && after.triples()
                    == before.triples() && wal1.logged == wal0.logged && wal1.pending@
                    == wal0.pending@,
            }
        },
        Err(e) => {
            &&& res matches Err(text) && text@ == e
            &&& after == before
            &&& wal1 == wal0
        },
    }
}

/// Executes an update and logs it.
pub fn execute_update(store: &mut TripleStore, update_str: &str, wal: &mut Wal) -> (res: Result<
    (),
    String,
>)
    requires
        old(store).wf(),
        old(wal).logged <= old(store).dict.keys().len(),
    ensures
        final(store).wf(),
        final(wal).logged <= final(store).dict.keys().len(),
        exists|x: Reading| #[trigger]
            update_readings(update_str@).contains(x) && updated(
                *old(store),
                *final(store),
                *old(wal),
                *final(wal),
                x,
                res,
            ),
{
    let x: Result<String, String> = parse_update(update_str);
    let ghost xv = reading(x);
    assert(update_readings(update_str@).contains(xv));
    match x {
        Ok(sse) => match read_update(sse.as_str()) {
            Some(ops) => apply_update(store, &ops, wal),
            None => Err(owned("Unsupported query algebra")),
        },
        Err(e) => Err(e),
    }
}

} // verus!
