//! Solution modifiers: order, projection, distinctness, slices.
//!
//! One query level nests them in a fixed way: a slice, in it distinctness, in it
//! a projection, in it an order. What does not fit belongs to a nested query.

use crate::hypertrie::dictionary::Dictionary;
use crate::hypertrie::executor::place;
use crate::hypertrie::rows::{first_rows, picked, rows_in_order, sliced, RowBlock};
use crate::sparql::algebra::{orders_view, texts, OrderBy, OrderByView, Pattern, PatternView};
use crate::sparql::expr::column_of;
use crate::sparql::numbers::{numbers_ok, replies, NumberCall, NumberReply, Replies};
use crate::sparql::sorting::{ordered_rows, sort_rows};
use crate::sparql::tables::{copy_vars, outcome, Outcome, Solutions, Table};
use crate::text::{has_prefix, owned, starts_with_text};
use vstd::prelude::*;

verus! {

/// The modifiers of one query level and the pattern under them.
pub struct Modifiers<'a> {
    pub pattern: &'a Pattern,
    /// The variables that are asked for; all of them if nothing is given.
    pub projection: Option<&'a Vec<String>>,
    pub distinct: bool,
    pub order_by: Option<&'a Vec<OrderBy>>,
    pub limit: Option<usize>,
    pub offset: usize,
}

#[verifier::ext_equal]
pub struct ModifiersView {
    pub pattern: PatternView,
    pub projection: Option<Seq<Seq<char>>>,
    pub distinct: bool,
    pub order_by: Seq<OrderByView>,
    pub limit: Option<usize>,
    pub offset: usize,
}

impl<'a> Modifiers<'a> {
    pub open spec fn view(&self) -> ModifiersView {
        ModifiersView {
            pattern: self.pattern.view(),
            projection: match self.projection {
                Some(v) => Some(texts(v@)),
                None => None,
            },
            distinct: self.distinct,
            order_by: match self.order_by {
                Some(v) => orders_view(v@),
                None => Seq::empty(),
            },
            limit: self.limit,
            offset: self.offset,
        }
    }
}

/// Whether a pattern is a modifier of a query.
pub open spec fn is_modifier(p: PatternView) -> bool {
    p is Slice || p is Distinct || p is Reduced || p is Project || p is Order
}

/// A pattern without its slice.
pub open spec fn under_slice(p: PatternView) -> PatternView {
    match p {
        PatternView::Slice(_, _, q) => *q,
        _ => p,
    }
}

/// A pattern without its distinctness.
pub open spec fn under_distinct(p: PatternView) -> PatternView {
    match p {
        PatternView::Distinct(q) => *q,
        PatternView::Reduced(q) => *q,
        _ => p,
    }
}

/// A pattern without its projection.
pub open spec fn under_project(p: PatternView) -> PatternView {
    match p {
        PatternView::Project(_, q) => *q,
        _ => p,
    }
}

/// A pattern without its order.
pub open spec fn under_order(p: PatternView) -> PatternView {
    match p {
        PatternView::Order(_, q) => *q,
        _ => p,
    }
}

/// The modifiers of the outermost query level.
pub open spec fn peeled(p: PatternView) -> ModifiersView {
    let p1 = under_slice(p);
    let p2 = under_distinct(p1);
    let p3 = under_project(p2);
    ModifiersView {
        pattern: under_order(p3),
        projection: match p2 {
            PatternView::Project(vars, _) => Some(vars),
            _ => None,
        },
        distinct: p1 is Distinct || p1 is Reduced,
        order_by: match p3 {
            PatternView::Order(orders, _) => orders,
            _ => Seq::empty(),
        },
        limit: match p {
            PatternView::Slice(_, length, _) => length,
            _ => None,
        },
        offset: match p {
            PatternView::Slice(start, _, _) => start,
            _ => 0,
        },
    }
}

/// The pattern under a modifier is smaller.
pub proof fn lemma_peeled_smaller(p: PatternView)
    requires
        is_modifier(p),
    ensures
        decreases_to!(p => peeled(p).pattern),
{
    let p1 = under_slice(p);
    let p2 = under_distinct(p1);
    let p3 = under_project(p2);
    let p4 = under_order(p3);
    assert(p1 == p || decreases_to!(p => p1));
    assert(p2 == p1 || decreases_to!(p1 => p2));
    assert(p3 == p2 || decreases_to!(p2 => p3));
    assert(p4 == p3 || decreases_to!(p3 => p4));
}

/// Takes the modifiers of the outermost query level off a pattern.
pub fn peel_modifiers(pattern: &Pattern) -> (m: Modifiers<'_>)
    ensures
        m.view() == peeled(pattern.view()),
        m.pattern == pattern || decreases_to!(pattern => m.pattern),
        is_modifier(pattern.view()) ==> decreases_to!(pattern => m.pattern),
{
    let (p1, offset, limit): (&Pattern, usize, Option<usize>) = match pattern {
        Pattern::Slice(start, length, q) => (q, *start, *length),
        _ => (pattern, 0, None),
    };
    assert(p1 == pattern || decreases_to!(pattern => p1));
    assert(p1.view() == under_slice(pattern.view()));
    let (p2, distinct): (&Pattern, bool) = match p1 {
        Pattern::Distinct(q) => (q, true),
        Pattern::Reduced(q) => (q, true),
        _ => (p1, false),
    };
    assert(p2 == p1 || decreases_to!(p1 => p2));
    assert(p2.view() == under_distinct(p1.view()));
    let (p3, projection): (&Pattern, Option<&Vec<String>>) = match p2 {
        Pattern::Project(vars, q) => (q, Some(vars)),
        _ => (p2, None),
    };
    assert(p3 == p2 || decreases_to!(p2 => p3));
    assert(p3.view() == under_project(p2.view()));
    let (p4, order_by): (&Pattern, Option<&Vec<OrderBy>>) = match p3 {
        Pattern::Order(orders, q) => (q, Some(orders)),
        _ => (p3, None),
    };
    assert(p4 == p3 || decreases_to!(p3 => p4));
    assert(p4.view() == under_order(p3.view()));
    Modifiers { pattern: p4, projection, distinct, order_by, limit, offset }
}

/// The limit that the pattern itself may stop at: enough rows for the slice, if
/// neither order nor distinctness needs the others.
pub open spec fn pushdown(m: ModifiersView) -> Option<usize> {
    if m.order_by.len() == 0 && !m.distinct {
        match m.limit {
            Some(l) => Some(
                if l + m.offset <= usize::MAX {
                    (l + m.offset) as usize
                } else {
                    usize::MAX
                },
            ),
            None => None,
        }
    } else {
        None
    }
}

/// The variables that are shown if none are asked for: all but those that stand
/// for blank nodes.
pub open spec fn shown(vars: Seq<Seq<char>>) -> Seq<Seq<char>>
    decreases vars.len(),
{
    if vars.len() == 0 {
        Seq::empty()
    } else if has_prefix(vars.last(), "__bn_"@) {
        shown(vars.drop_last())
    } else {
        shown(vars.drop_last()).push(vars.last())
    }
}

/// The variables that a query asks for.
pub open spec fn asked(m: ModifiersView, vars: Seq<Seq<char>>) -> Seq<Seq<char>> {
    match m.projection {
        Some(v) => v,
        None => shown(vars),
    }
}

/// The first of the names, from number `i` on, that is not a column.
pub open spec fn first_missing(vars: Seq<Seq<char>>, names: Seq<Seq<char>>, i: int) -> Option<Seq<char>>
    decreases names.len() - i,
{
    if i < 0 || i >= names.len() {
        None
    } else if place(vars, names[i]) >= vars.len() {
        Some(names[i])
    } else {
        first_missing(vars, names, i + 1)
    }
}

/// The text of the error for a variable that is not there.
pub open spec fn missing_text(name: Seq<char>) -> Seq<char> {
    "SELECT variable ?"@ + name + " does not appear in pattern"@
}

/// The columns of the names.
pub open spec fn columns(vars: Seq<Seq<char>>, names: Seq<Seq<char>>) -> Seq<usize> {
    Seq::new(names.len(), |i: int| place(vars, names[i]) as usize)
}

/// The rows in the columns of the names.
pub open spec fn projected(vars: Seq<Seq<char>>, names: Seq<Seq<char>>, rows: Seq<Seq<u32>>) -> Seq<
    Seq<u32>,
> {
    rows.map_values(|r: Seq<u32>| picked(r, columns(vars, names)))
}

/// The rows in the asked order.
pub open spec fn in_asked_order(num: Replies, keys: Seq<Seq<char>>, m: ModifiersView, t: Table) -> Seq<
    Seq<u32>,
> {
    if m.order_by.len() > 0 {
        ordered_rows(num, keys, t.vars, t.rows, m.order_by)
    } else {
        t.rows
    }
}

/// The rows without repetitions, if that is asked for: in the order they have,
/// or in the order of rows if they have none.
pub open spec fn as_distinct(m: ModifiersView, rows: Seq<Seq<u32>>) -> Seq<Seq<u32>> {
    if !m.distinct {
        rows
    } else if m.order_by.len() > 0 {
        first_rows(rows)
    } else {
        rows_in_order(rows)
    }
}

/// What the modifiers make of a table: it is ordered, projected, freed of
/// repetitions and sliced, in this turn.
pub open spec fn selected(num: Replies, keys: Seq<Seq<char>>, m: ModifiersView, t: Table) -> Outcome {
    let names = asked(m, t.vars);
    match first_missing(t.vars, names, 0) {
        Some(v) => Err(missing_text(v)),
        None => Ok(
            Table {
                vars: names,
                rows: sliced(
                    as_distinct(m, projected(t.vars, names, in_asked_order(num, keys, m, t))),
                    m.offset as nat,
                    m.limit,
                ),
            },
        ),
    }
}

/// The limit that may be handed to the pattern does not change the answer: of a
/// table and of its first rows up to that limit, the modifiers make the same.
pub proof fn law_limit_pushdown(
    num: Replies,
    keys: Seq<Seq<char>>,
    m: ModifiersView,
    t: Table,
    limit: usize,
)
    requires
        pushdown(m) == Some(limit),
        t.rows.len() <= usize::MAX,
    ensures
        selected(num, keys, m, t) == selected(
            num,
            keys,
            m,
            Table {
                vars: t.vars,
                rows: if t.rows.len() <= limit {
                    t.rows
                } else {
                    t.rows.take(limit as int)
                },
            },
        ),
{
    let names = asked(m, t.vars);
    if t.rows.len() > limit {
        let few = t.rows.take(limit as int);
        let all = projected(t.vars, names, t.rows);
        let some = projected(t.vars, names, few);
        assert(some =~= all.take(limit as int));
        let length = m.limit->0;
        assert(length + m.offset <= usize::MAX);
        assert(sliced(all, m.offset as nat, m.limit) =~= sliced(some, m.offset as nat, m.limit));
    }
}

/// The limit that the pattern itself may stop at.
pub fn find_limit(m: &Modifiers<'_>) -> (r: Option<usize>)
    ensures
        r == pushdown(m.view()),
{
    let ordered: bool = match m.order_by {
        Some(v) => v.len() > 0,
        None => false,
    };
    if ordered || m.distinct {
        return None;
    }
    match m.limit {
        Some(l) => if l <= usize::MAX - m.offset {
            Some(l + m.offset)
        } else {
            Some(usize::MAX)
        },
        None => None,
    }
}

/// The names that do not stand for blank nodes.
fn show_vars(vars: &Vec<String>) -> (r: Vec<String>)
    ensures
        texts(r@) == shown(texts(vars@)),
{
    let ghost vs = texts(vars@);
    let mut r: Vec<String> = Vec::new();
    let mut i: usize = 0;
    proof {
        assert(vs.take(0) =~= Seq::<Seq<char>>::empty());
        assert(texts(r@) =~= Seq::<Seq<char>>::empty());
    }
    while i < vars.len()
        invariant
            vs == texts(vars@),
            i <= vars@.len(),
            texts(r@) == shown(vs.take(i as int)),
        decreases vars@.len() - i,
    {
        let ghost before = texts(r@);
        proof {
            assert(vs.take(i + 1).drop_last() =~= vs.take(i as int));
            assert(vs[i as int] == vars@[i as int]@);
        }
        if !starts_with_text(vars[i].as_str(), "__bn_") {
            r.push(vars[i].clone());
            assert(texts(r@) =~= before.push(vars@[i as int]@));
        }
        i += 1;
    }
    assert(vs.take(i as int) =~= vs);
    r
}

/// The columns of the names, or the first name that is not a column.
fn find_columns(vars: &Vec<String>, names: &Vec<String>) -> (r: Result<Vec<usize>, String>)
    ensures
        match r {
            Ok(c) => first_missing(texts(vars@), texts(names@), 0) is None && c@ == columns(
                texts(vars@),
                texts(names@),
            ) && forall|k: int| 0 <= k < c@.len() ==> (#[trigger] c@[k]) < vars@.len(),
            Err(v) => first_missing(texts(vars@), texts(names@), 0) == Some(v@),
        },
{
    let ghost vs = texts(vars@);
    let ghost ns = texts(names@);
    let mut cols: Vec<usize> = Vec::new();
    let mut i: usize = 0;
    while i < names.len()
        invariant
            vs == texts(vars@),
            ns == texts(names@),
            i <= names@.len(),
            first_missing(vs, ns, 0) == first_missing(vs, ns, i as int),
            cols@ == columns(vs, ns).take(i as int),
            forall|k: int| 0 <= k < cols@.len() ==> (#[trigger] cols@[k]) < vars@.len(),
        decreases names@.len() - i,
    {
        assert(ns[i as int] == names@[i as int]@);
        let c: usize = column_of(vars, names[i].as_str());
        if c >= vars.len() {
            return Err(names[i].clone());
        }
        cols.push(c);
        i += 1;
        assert(cols@ =~= columns(vs, ns).take(i as int));
    }
    assert(cols@ =~= columns(vs, ns));
    Ok(cols)
}

/// The rows in the columns of the names.
fn narrow_rows(rows: &RowBlock, vars: &Vec<String>, names: &Vec<String>) -> (r: Result<RowBlock, String>)
    requires
        rows.wf(),
        rows.width() == vars@.len(),
    ensures
        match r {
            Ok(b) => first_missing(texts(vars@), texts(names@), 0) is None && b.wf() && b.width()
                == names@.len() && b@ == projected(texts(vars@), texts(names@), rows@),
            Err(e) => first_missing(texts(vars@), texts(names@), 0) is Some && e@ == missing_text(
                first_missing(texts(vars@), texts(names@), 0)->0,
            ),
        },
{
    match find_columns(vars, names) {
        Ok(c) => {
            let b: RowBlock = rows.project(c.as_slice());
            assert(c@.len() == names@.len());
            assert(b@ =~= projected(texts(vars@), texts(names@), rows@));
            Ok(b)
        },
        Err(v) => {
            let mut e: String = owned("SELECT variable ?");
            e.push_str(v.as_str());
            e.push_str(" does not appear in pattern");
            assert(e@ =~= missing_text(v@));
            Err(e)
        },
    }
}

/// Puts the rows into the asked order.
fn order_rows<F: Fn(NumberCall) -> NumberReply>(
    m: &Modifiers<'_>,
    rows: &mut RowBlock,
    vars: &Vec<String>,
    dict: &Dictionary,
    numbers: &F,
)
    requires
        old(rows).wf(),
        old(rows).width() == vars@.len(),
        dict.wf(),
        numbers_ok(*numbers),
    ensures
        final(rows).wf(),
        final(rows).width() == old(rows).width(),
        final(rows)@ == in_asked_order(
            replies(*numbers),
            dict.keys(),
            m.view(),
            Table { vars: texts(vars@), rows: old(rows)@ },
        ),
{
    if let Some(orders) = m.order_by {
        if orders.len() > 0 {
            sort_rows(rows, vars, orders, dict, numbers);
        }
    }
}

/// The variables that a query asks for.
fn ask_vars(m: &Modifiers<'_>, vars: &Vec<String>) -> (names: Vec<String>)
    ensures
        texts(names@) == asked(m.view(), texts(vars@)),
{
    match m.projection {
        Some(v) => copy_vars(v),
        None => show_vars(vars),
    }
}

/// Drops repetitions, if that is asked for, and cuts the slice out.
fn finish_rows(m: &Modifiers<'_>, rows: &mut RowBlock)
    requires
        old(rows).wf(),
    ensures
        final(rows).wf(),
        final(rows).width() == old(rows).width(),
        final(rows)@ == sliced(
            as_distinct(m.view(), old(rows)@),
            m.offset as nat,
            m.limit,
        ),
{
    if m.distinct {
        let ordered: bool = match m.order_by {
            Some(v) => v.len() > 0,
            None => false,
        };
        if ordered {
            rows.dedup_preserving_order();
        } else {
            rows.sort_distinct();
        }
    }
    rows.apply_offset_limit(m.offset, m.limit);
}

/// Applies the modifiers to the solutions of the pattern.
pub fn apply_modifiers<F: Fn(NumberCall) -> NumberReply>(
    m: &Modifiers<'_>,
    t: Solutions,
    dict: &Dictionary,
    numbers: &F,
) -> (res: Result<Solutions, String>)
    requires
        t.wf(),
        dict.wf(),
        numbers_ok(*numbers),
    ensures
        outcome(res) == selected(replies(*numbers), dict.keys(), m.view(), t@),
        res is Ok ==> (res->Ok_0).wf(),
{
    let vars: Vec<String> = t.vars;
    let mut rows: RowBlock = t.rows;
    order_rows(m, &mut rows, &vars, dict, numbers);
    let names: Vec<String> = ask_vars(m, &vars);
    match narrow_rows(&rows, &vars, &names) {
        Ok(b) => {
            let mut narrow: RowBlock = b;
            finish_rows(m, &mut narrow);
            Ok(Solutions { vars: names, rows: narrow })
        },
        Err(e) => Err(e),
    }
}

} // verus!
