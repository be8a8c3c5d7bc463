//! Computed columns: values become terms of the dictionary.

use crate::hypertrie::dictionary::{
    key_id, plain, tagged, term_key, typed, Dictionary, TermKind, TermType,
};
use crate::hypertrie::rows::RowBlock;
use crate::hypertrie::NULL_ID;
use crate::sparql::algebra::{texts, Expr, ExprView};
use crate::sparql::expr::{bool_text, bound_id, ev, eval, find_bound, Scope};
use crate::sparql::numbers::{
    ask_text, numbers_ok, replies, text_in, NumberCall, NumberCallView, NumberReply, Replies,
};
use crate::sparql::tables::{copy_vars, outcome, Outcome, Solutions, Table};
use crate::sparql::values::{Val, Value};
use crate::text::owned;
use vstd::prelude::*;

verus! {

/// The text of the error when no identifier is left.
pub open spec fn dictionary_full_text() -> Seq<char> {
    "the dictionary is full"@
}

/// The term that stands for a value. Numbers become doubles.
pub open spec fn val_term(num: Replies, v: Val) -> (Seq<char>, TermKind) {
    match v {
        Val::Iri(s) => (s, TermKind::Iri),
        Val::Blank(s) => (s, TermKind::BlankNode),
        Val::Str(s) => (s, plain()),
        Val::Num(n) => (
            text_in(num(NumberCallView::Text(n))),
            typed("http://www.w3.org/2001/XMLSchema#double"@),
        ),
        Val::Bool(b) => (bool_text(b), typed("http://www.w3.org/2001/XMLSchema#boolean"@)),
        Val::Lang(s, l) => (s, tagged(l)),
        Val::Typed(s, d) => (s, typed(d)),
    }
}

/// The identifier of a term, which joins the dictionary if it was not there,
/// and the dictionary after that. Nothing if there is no room.
pub open spec fn interned(keys: Seq<Seq<char>>, term: (Seq<char>, TermKind)) -> (
    Option<u32>,
    Seq<Seq<char>>,
) {
    let key = term_key(term.0, term.1);
    if keys.contains(key) {
        (key_id(keys, key), keys)
    } else if keys.len() < u32::MAX {
        (Some(keys.len() as u32), keys.push(key))
    } else {
        (None, keys)
    }
}

/// The identifier of a term, which is added if it was not there.
pub(crate) fn intern(dict: &mut Dictionary, value: &str, typ: TermType) -> (id: Option<u32>)
    requires
        old(dict).wf(),
    ensures
        final(dict).wf(),
        (id, final(dict).keys()) == interned(old(dict).keys(), (value@, typ@)),
{
    let ghost keys = dict.keys();
    let ghost key = term_key(value@, typ@);
    if let Some(id) = dict.lookup_term(value, &typ) {
        return Some(id);
    }
    if dict.len() >= 0xFFFF_FFFF {
        return None;
    }
    let id: u32 = dict.insert_with_type(value, typ);
    proof {
        assert(dict.keys() == keys.push(key));
        if id < keys.len() {
            assert(keys[id as int] == key);
            assert(keys.contains(key));
        }
        assert(id == keys.len());
    }
    Some(id)
}

/// The term that stands for a value.
pub fn value_term<F: Fn(NumberCall) -> NumberReply>(numbers: &F, v: Value) -> (r: (String, TermType))
    requires
        numbers_ok(*numbers),
    ensures
        ((r.0)@, (r.1)@) == val_term(replies(*numbers), v@),
{
    match v {
        Value::Iri(s) => (s, TermType::iri()),
        Value::Blank(s) => (s, TermType::BlankNode),
        Value::Str(s) => (s, TermType::literal_plain()),
        Value::Num(n) => (
            ask_text(numbers, n),
            TermType::literal_datatype(owned("http://www.w3.org/2001/XMLSchema#double")),
        ),
        Value::Bool(b) => (
            if b {
                owned("true")
            } else {
                owned("false")
            },
            TermType::literal_datatype(owned("http://www.w3.org/2001/XMLSchema#boolean")),
        ),
        Value::Lang(s, l) => (s, TermType::literal_lang(l)),
        Value::Typed(s, d) => (s, TermType::literal_datatype(d)),
    }
}

/// The identifier that an expression binds: that of the variable, if it is one,
/// else that of its value. An error binds nothing.
pub open spec fn bind_id(e: ExprView, c: Scope) -> (Option<u32>, Seq<Seq<char>>) {
    match e {
        ExprView::Variable(n) => (
            Some(
                match bound_id(c, n) {
                    Some(id) => id,
                    None => NULL_ID,
                },
            ),
            c.keys,
        ),
        _ => match ev(e, c) {
            Some(v) => interned(c.keys, val_term(c.num, v)),
            None => (Some(NULL_ID), c.keys),
        },
    }
}

/// The first `n` rows with the bound column, and the dictionary after that;
/// no rows if it has no room.
pub open spec fn bound_rows(num: Replies, keys: Seq<Seq<char>>, t: Table, e: ExprView, n: int) -> (
    Option<Seq<Seq<u32>>>,
    Seq<Seq<char>>,
)
    decreases n,
{
    if n <= 0 {
        (Some(Seq::empty()), keys)
    } else {
        let before = bound_rows(num, keys, t, e, n - 1);
        match before.0 {
            None => before,
            Some(rows) => {
                let row = t.rows[n - 1];
                let (id, after) = bind_id(e, Scope { num, keys: before.1, vars: t.vars, row });
                match id {
                    Some(x) => (Some(rows.push(row.push(x))), after),
                    None => (None, after),
                }
            },
        }
    }
}

/// A table with one more column, and the dictionary after that.
pub open spec fn bind_outcome(
    num: Replies,
    keys: Seq<Seq<char>>,
    t: Table,
    var: Seq<char>,
    e: ExprView,
) -> (Outcome, Seq<Seq<char>>) {
    let (rows, after) = bound_rows(num, keys, t, e, t.rows.len() as int);
    (
        match rows {
            Some(r) => Ok(Table { vars: t.vars.push(var), rows: r }),
            None => Err(dictionary_full_text()),
        },
        after,
    )
}

proof fn lemma_bound_rows_stuck(num: Replies, keys: Seq<Seq<char>>, t: Table, e: ExprView, i: int, n: int)
    requires
        0 <= i <= n,
        bound_rows(num, keys, t, e, i).0 is None,
    ensures
        bound_rows(num, keys, t, e, n) == bound_rows(num, keys, t, e, i),
    decreases n - i,
{
    if i < n {
        lemma_bound_rows_stuck(num, keys, t, e, i, n - 1);
    }
}

fn bind_one<F: Fn(NumberCall) -> NumberReply>(
    e: &Expr,
    row: &[u32],
    vars: &Vec<String>,
    dict: &mut Dictionary,
    numbers: &F,
) -> (id: Option<u32>)
    requires
        numbers_ok(*numbers),
        old(dict).wf(),
        row@.len() == vars@.len(),
    ensures
        final(dict).wf(),
        (id, final(dict).keys()) == bind_id(
            e.view(),
            Scope {
                num: replies(*numbers),
                keys: old(dict).keys(),
                vars: texts(vars@),
                row: row@,
            },
        ),
{
    if let Expr::Variable(n) = e {
        match find_bound(n.as_str(), row, vars, dict, numbers) {
            Some(id) => Some(id),
            None => Some(NULL_ID),
        }
    } else {
        match eval(e, row, vars, dict, numbers) {
            Some(v) => {
                let (text, typ) = value_term(numbers, v);
                intern(dict, text.as_str(), typ)
            },
            None => Some(NULL_ID),
        }
    }
}

/// Binds the value of an expression, row by row, to a new column.
pub fn bind_column<F: Fn(NumberCall) -> NumberReply>(
    t: &Solutions,
    var: &str,
    e: &Expr,
    dict: &mut Dictionary,
    numbers: &F,
) -> (res: Result<Solutions, String>)
    requires
        t.wf(),
        numbers_ok(*numbers),
        old(dict).wf(),
    ensures
        final(dict).wf(),
        (outcome(res), final(dict).keys()) == bind_outcome(
            replies(*numbers),
            old(dict).keys(),
            t@,
            var@,
            e.view(),
        ),
        res is Ok ==> (res->Ok_0).wf(),
{
    let ghost num = replies(*numbers);
    let ghost keys = dict.keys();
    let ghost ev0 = e.view();
    let ghost tv = t@;
    let mut vars: Vec<String> = copy_vars(&t.vars);
    vars.push(owned(var));
    let width: usize = vars.len();
    let mut out: RowBlock = RowBlock::new(width);
    let n: usize = t.rows.n_rows();
    let mut i: usize = 0;
    assert(out@ =~= Seq::<Seq<u32>>::empty());
    while i < n
        invariant
            t.wf(),
            tv == t@,
            width == t.vars@.len() + 1,
            n == tv.rows.len(),
            i <= n,
            ev0 == e.view(),
            numbers_ok(*numbers),
            num == replies(*numbers),
            keys == old(dict).keys(),
            dict.wf(),
            out.wf(),
            out.width() == width,
            out@.len() == i,
            bound_rows(num, keys, tv, ev0, i as int) == (Some(out@), dict.keys()),
        decreases n - i,
    {
        let row: &[u32] = t.rows.row(i);
        match bind_one(e, row, &t.vars, dict, numbers) {
            Some(id) => {
                let ghost before = out@;
                let cell: [u32; 1] = [id];
                out.push_row_concat(row, &cell);
                proof {
                    assert(cell@ =~= seq![id]);
                    assert(row@ + cell@ =~= row@.push(id));
                    assert(out@ =~= before.push(row@.push(id)));
                }
            },
            None => {
                proof {
                    assert(bound_rows(num, keys, tv, ev0, i + 1) == (
                        None::<Seq<Seq<u32>>>,
                        dict.keys(),
                    ));
                    lemma_bound_rows_stuck(num, keys, tv, ev0, i + 1, n as int);
                }
                return Err(owned("the dictionary is full"));
            },
        }
        i += 1;
    }
    let s: Solutions = Solutions { vars, rows: out };
    assert(s@.vars =~= tv.vars.push(var@));
    Ok(s)
}

} // verus!
