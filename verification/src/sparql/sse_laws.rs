//! Trees as text: what is written with brackets and blanks is read back.

use crate::hypertrie::export::{escaped, escaped_char, lemma_escaped_front};
use crate::sparql::algebra::{QueryView, UpdateOpView};
use crate::sparql::reader::{head, items, text_query, text_update};
use crate::sparql::reader_laws::{form, law_operations_read, law_query_reads, op_ok, op_tree, query_ok, query_tree};
use crate::sparql::sse::{
    angle_from, atom_end, ends_word, items_at, quote_from, tree_at, tree_of, white_from, word_from, Tree,
};
use crate::text::white;
use vstd::prelude::*;

verus! {

/// A word of plain characters.
pub open spec fn plain_word(a: Seq<char>) -> bool {
    &&& a.len() > 0
    &&& forall|i: int| 0 <= i < a.len() ==> !ends_word(#[trigger] a[i])
    &&& a[0] != '"'
    &&& a[0] == '<' && a.len() > 1 ==> a[1] == '='
}

/// An IRI in angle brackets.
pub open spec fn iri_word(a: Seq<char>, v: Seq<char>) -> bool {
    &&& a == seq!['<'] + v + seq!['>']
    &&& !v.contains('>')
    &&& v.len() > 0 ==> !white(v[0]) && v[0] != '='
}

/// A datatype behind a literal.
pub open spec fn datatype_part(d: Seq<char>) -> Seq<char> {
    seq!['^', '^', '<'] + d + seq!['>']
}

/// A quoted text, with its tag or its datatype.
pub open spec fn literal_word(a: Seq<char>, v: Seq<char>, more: Seq<char>) -> bool {
    &&& a == seq!['"'] + escaped(v) + seq!['"'] + more
    &&& {
        ||| more.len() == 0
        ||| more[0] == '@' && forall|i: int| 0 <= i < more.len() ==> !ends_word(#[trigger] more[i])
        ||| exists|d: Seq<char>| more == #[trigger] datatype_part(d) && !d.contains('>')
    }
}

/// Texts that are one word.
pub open spec fn is_word(a: Seq<char>) -> bool {
    ||| plain_word(a)
    ||| exists|v: Seq<char>| #[trigger] iri_word(a, v)
    ||| exists|v: Seq<char>, more: Seq<char>| #[trigger] literal_word(a, v, more)
}

/// Trees of words. A lone opening angle bracket does not end a list.
pub open spec fn tree_ok(t: Tree) -> bool
    decreases t,
{
    match t {
        Tree::Atom(a) => is_word(a),
        Tree::List(v) => forall|i: int|
            0 <= i < v.len() ==> tree_ok(#[trigger] v[i]) && (v[i] == Tree::Atom(seq!['<']) ==> i + 1
                < v.len()),
    }
}

/// A tree as text: words as they are, lists in round brackets with a blank between items.
pub open spec fn tree_text(t: Tree) -> Seq<char>
    decreases t, 0nat,
{
    match t {
        Tree::Atom(a) => a,
        Tree::List(v) => seq!['('] + items_text(v, 0),
    }
}

/// The items from number `i` on, and the closing bracket.
pub open spec fn items_text(v: Seq<Tree>, i: int) -> Seq<char>
    decreases v, v.len() - i,
{
    if i < 0 || i >= v.len() {
        seq![')']
    } else {
        gap(i) + tree_text(v[i]) + items_text(v, i + 1)
    }
}

/// What stands before item `i`.
pub open spec fn gap(i: int) -> Seq<char> {
    if i > 0 {
        seq![' ']
    } else {
        Seq::empty()
    }
}

// --- Words ---------------------------------------------------------------------------------

proof fn lemma_word_run(s: Seq<char>, i: int, n: int)
    requires
        0 <= i <= n <= s.len(),
        forall|k: int| i <= k < n ==> !ends_word(#[trigger] s[k]),
        n == s.len() || ends_word(s[n]),
    ensures
        word_from(s, i) == n,
    decreases n - i,
{
    if i < n {
        assert(!ends_word(s[i]));
        lemma_word_run(s, i + 1, n);
    }
}

proof fn lemma_angle_run(s: Seq<char>, i: int, n: int)
    requires
        0 <= i <= n < s.len(),
        forall|k: int| i <= k < n ==> #[trigger] s[k] != '>',
        s[n] == '>',
    ensures
        angle_from(s, i) == n + 1,
    decreases n - i,
{
    if i < n {
        lemma_angle_run(s, i + 1, n);
    }
}

proof fn lemma_quote_run(pre: Seq<char>, v: Seq<char>, rest: Seq<char>)
    ensures
        quote_from(pre + escaped(v) + seq!['"'] + rest, pre.len() as int) == pre.len() + escaped(v).len() + 1,
    decreases v.len(),
{
    let s = pre + escaped(v) + seq!['"'] + rest;
    let i = pre.len() as int;
    if v.len() == 0 {
        assert(s[i] == '"');
    } else {
        lemma_escaped_front(v);
        let c = escaped_char(v[0]);
        let w = v.drop_first();
        let next = pre + c;
        assert(next + escaped(w) + seq!['"'] + rest =~= s);
        lemma_quote_run(next, w, rest);
        assert(s[i] == c[0]);
        if c.len() == 2 {
            assert(s[i] == '\\');
        } else {
            assert(s[i] != '"' && s[i] != '\\');
        }
    }
}

/// What may follow a word.
spec fn may_follow(a: Seq<char>, rest: Seq<char>) -> bool {
    &&& rest.len() == 0 || ends_word(rest[0])
    &&& a == seq!['<'] ==> rest.len() > 0 && white(rest[0])
}

proof fn lemma_word(pre: Seq<char>, a: Seq<char>, rest: Seq<char>)
    requires
        is_word(a),
        may_follow(a, rest),
    ensures
        a.len() > 0,
        !ends_word(a[0]),
        atom_end(pre + a + rest, pre.len() as int) == pre.len() + a.len(),
        (pre + a + rest).subrange(pre.len() as int, pre.len() as int + a.len()) == a,
{
    let s = pre + a + rest;
    let i = pre.len() as int;
    let n = i + a.len();
    assert(s.subrange(i, n) =~= a);
    if n < s.len() {
        assert(s[n] == rest[0]);
    }
    if plain_word(a) {
        assert(s[i] == a[0]);
        assert forall|k: int| i <= k < n implies !ends_word(#[trigger] s[k]) by {
            assert(s[k] == a[k - i]);
        }
        if a[0] == '<' {
            if a.len() > 1 {
                assert(s[i + 1] == a[1]);
            } else {
                assert(a =~= seq!['<']);
                assert(s[i + 1] == rest[0]);
            }
        }
        lemma_word_run(s, i, n);
    } else if exists|v: Seq<char>| #[trigger] iri_word(a, v) {
        let v = choose|v: Seq<char>| #[trigger] iri_word(a, v);
        assert(s[i] == '<');
        assert(s[i + 1] == a[1]);
        if v.len() > 0 {
            assert(a[1] == v[0]);
        }
        assert forall|k: int| i <= k < n - 1 implies #[trigger] s[k] != '>' by {
            assert(s[k] == a[k - i]);
            if k > i {
                assert(a[k - i] == v[k - i - 1]);
                assert(v.contains(v[k - i - 1]));
            }
        }
        assert(s[n - 1] == a[a.len() - 1]);
        lemma_angle_run(s, i, n - 1);
    } else {
        let (v, more) = choose|v: Seq<char>, more: Seq<char>| #[trigger] literal_word(a, v, more);
        assert(a[0] == '"');
        assert(s[i] == '"');
        let before = pre + seq!['"'];
        let tail = more + rest;
        assert(s =~= before + escaped(v) + seq!['"'] + tail);
        lemma_quote_run(before, v, tail);
        let q = i + escaped(v).len() + 2;
        assert(quote_from(s, i + 1) == q);
        assert(q + more.len() == n);
        assert forall|k: int| 0 <= k < more.len() implies #[trigger] s[q + k] == more[k] by {
            assert(a[a.len() - more.len() + k] == more[k]);
        }
        if more.len() == 0 {
            if q < s.len() {
                assert(ends_word(s[q]));
            }
        } else if more[0] == '@' && forall|k: int| 0 <= k < more.len() ==> !ends_word(#[trigger] more[k]) {
            assert(s[q + 0] == '@');
            assert forall|k: int| q <= k < n implies !ends_word(#[trigger] s[k]) by {
                assert(s[q + (k - q)] == more[k - q]);
            }
            lemma_word_run(s, q, n);
        } else {
            let d = choose|d: Seq<char>|
                more == #[trigger] datatype_part(d) && !d.contains('>');
            assert(s[q + 0] == '^');
            assert(s[q + 1] == '^');
            assert(s[q + 2] == '<');
            assert forall|k: int| q + 2 <= k < n - 1 implies #[trigger] s[k] != '>' by {
                assert(s[q + (k - q)] == more[k - q]);
                if k > q + 2 {
                    assert(more[k - q] == d[k - q - 3]);
                    assert(d.contains(d[k - q - 3]));
                }
            }
            assert(s[q + (more.len() - 1)] == more[more.len() - 1]);
            lemma_angle_run(s, q + 2, n - 1);
        }
    }
}

proof fn lemma_starts(t: Tree)
    requires
        tree_ok(t),
    ensures
        tree_text(t).len() > 0,
        !white(tree_text(t)[0]),
        tree_text(t)[0] != ')',
        t is List ==> tree_text(t)[0] == '(',
        t is Atom ==> tree_text(t)[0] != '(',
{
    if let Tree::Atom(a) = t {
        let none = Seq::<char>::empty();
        lemma_word(none, a, seq![' ']);
    }
}

// --- Trees -----------------------------------------------------------------------------------

spec fn after_ok(t: Tree, rest: Seq<char>) -> bool {
    match t {
        Tree::Atom(a) => may_follow(a, rest),
        Tree::List(_) => true,
    }
}

proof fn lemma_tree(pre: Seq<char>, i: int, t: Tree, rest: Seq<char>)
    requires
        tree_ok(t),
        after_ok(t, rest),
    ensures
        tree_at(pre + gap(i) + tree_text(t) + rest, pre.len() as int) == Some(
            (t, (pre.len() + gap(i).len() + tree_text(t).len()) as int),
        ),
    decreases t, 0nat,
{
    let head = pre + gap(i);
    let s = head + tree_text(t) + rest;
    let p = pre.len() as int;
    let j = head.len() as int;
    lemma_starts(t);
    assert(s[j] == tree_text(t)[0]);
    assert(white_from(s, p) == j) by {
        assert(white_from(s, j) == j);
        if i > 0 {
            assert(s[p] == ' ');
        }
    }
    match t {
        Tree::Atom(a) => {
            lemma_word(head, a, rest);
        },
        Tree::List(v) => {
            let open = head + seq!['('];
            assert(s =~= open + items_text(v, 0) + rest);
            lemma_items(open, v, 0, rest);
            assert(v.skip(0) =~= v);
        },
    }
}

proof fn lemma_items(pre: Seq<char>, v: Seq<Tree>, i: int, rest: Seq<char>)
    requires
        tree_ok(Tree::List(v)),
        0 <= i <= v.len(),
    ensures
        items_at(pre + items_text(v, i) + rest, pre.len() as int) == Some(
            (v.skip(i), (pre.len() + items_text(v, i).len()) as int),
        ),
    decreases v, v.len() - i,
{
    let s = pre + items_text(v, i) + rest;
    let p = pre.len() as int;
    if i == v.len() {
        assert(s[p] == ')');
        assert(white_from(s, p) == p);
        assert(v.skip(i) =~= Seq::<Tree>::empty());
    } else {
        let t = v[i];
        let text = tree_text(t);
        let tail = items_text(v, i + 1) + rest;
        assert(tree_ok(t));
        assert(s =~= pre + gap(i) + text + tail);
        lemma_tail(v, i + 1, rest);
        if t == Tree::Atom(seq!['<']) {
            assert(i + 1 < v.len());
        }
        assert(after_ok(t, tail));
        lemma_tree(pre, i, t, tail);
        let k = p + gap(i).len() + text.len();
        let next = pre + gap(i) + text;
        assert(s =~= next + items_text(v, i + 1) + rest);
        lemma_items(next, v, i + 1, rest);
        lemma_starts(t);
        let j = p + gap(i).len();
        assert(s[j] == text[0]);
        assert(white_from(s, p) == j) by {
            assert(white_from(s, j) == j);
            if i > 0 {
                assert(s[p] == ' ');
            }
        }
        assert(seq![t] + v.skip(i + 1) =~= v.skip(i));
        assert(k > p);
        assert(s.len() >= k);
    }
}

proof fn lemma_tail(v: Seq<Tree>, i: int, rest: Seq<char>)
    requires
        0 < i <= v.len(),
    ensures
        (items_text(v, i) + rest).len() > 0,
        ends_word((items_text(v, i) + rest)[0]),
        i < v.len() ==> (items_text(v, i) + rest)[0] == ' ',
{
    if i < v.len() {
        assert(items_text(v, i)[0] == ' ');
    } else {
        assert(items_text(v, i)[0] == ')');
    }
}

/// A written tree is read back.
pub proof fn law_tree_reads(t: Tree)
    requires
        tree_ok(t),
        t != Tree::Atom(seq!['<']),
    ensures
        tree_of(tree_text(t)) == Some(t),
{
    let none = Seq::<char>::empty();
    let s = tree_text(t);
    lemma_tree(none, 0, t, none);
    assert(none + gap(0) + s + none =~= s);
    assert(white_from(s, s.len() as int) == s.len());
}

/// The text of a query stands for the query.
pub proof fn law_query_text(q: QueryView, name: Tree)
    requires
        query_ok(q),
        tree_ok(query_tree(q, name)),
    ensures
        text_query(tree_text(query_tree(q, name))) == Some(q),
{
    law_query_reads(q, name, name, name);
    assert(query_tree(q, name) is List) by {
        match q {
            QueryView::Select(p) => {
                crate::sparql::reader_laws::law_pattern_reads(p, name);
            },
            _ => {},
        }
    }
    law_tree_reads(query_tree(q, name));
}

/// An update in its text form.
pub open spec fn update_tree(ops: Seq<UpdateOpView>) -> Tree {
    form("update"@, ops.map_values(|o: UpdateOpView| op_tree(o)))
}

/// The text of an update stands for its operations, in their order.
pub proof fn law_update_text(ops: Seq<UpdateOpView>)
    requires
        forall|i: int| 0 <= i < ops.len() ==> op_ok(#[trigger] ops[i]),
        tree_ok(update_tree(ops)),
    ensures
        text_update(tree_text(update_tree(ops))) == Some(ops),
{
    let args = ops.map_values(|o: UpdateOpView| op_tree(o));
    let t = update_tree(ops);
    law_operations_read(ops);
    law_tree_reads(t);
    reveal_strlit("update");
    reveal_strlit("base");
    assert("update"@.len() == 6 && "base"@.len() == 4);
    assert(items(t)[0] == Tree::Atom("update"@));
    assert(head(t) == "update"@);
    assert(items(t).skip(1) =~= args);
}

} // verus!
