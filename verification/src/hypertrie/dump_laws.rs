//! What a dumped store gives when it is read back.

use crate::hypertrie::csr::{triple_set, IdTriple};
use crate::hypertrie::dictionary::{key_kind, key_value, readable, TermKind};
use crate::hypertrie::export::{
    document_triples, escaped, escaped_char, law_line_round_trip, lemma_run_length, line_adds, no_white,
    run_length, term_text, triple_line, writable, TermText, TripleText,
};
use crate::hypertrie::query::{dumped, id_triple, id_triples, keys_after, lemma_keys_after, text_key};
use crate::text::white;
use vstd::prelude::*;

verus! {

/// The term of a key.
pub open spec fn key_term(key: Seq<char>) -> TermText {
    TermText { value: key_value(key), typ: key_kind(key) }
}

/// The terms of a triple of identifiers.
pub open spec fn id_texts(keys: Seq<Seq<char>>, t: IdTriple) -> TripleText {
    TripleText {
        subject: key_term(keys[t.0 as int]),
        predicate: key_term(keys[t.1 as int]),
        object: key_term(keys[t.2 as int]),
    }
}

/// Triples of identifiers as text.
pub open spec fn list_texts(keys: Seq<Seq<char>>, ts: Seq<IdTriple>) -> Seq<TripleText> {
    ts.map_values(|t: IdTriple| id_texts(keys, t))
}

/// A set of triples of identifiers as text.
pub open spec fn set_texts(keys: Seq<Seq<char>>, set: Set<IdTriple>) -> Set<TripleText> {
    Set::new(|x: TripleText| exists|t: IdTriple| #[trigger] set.contains(t) && id_texts(keys, t) == x)
}

/// Terms that fit on one line of N-Triples.
pub open spec fn one_line(t: TermText) -> bool {
    &&& writable(t)
    &&& match t.typ {
        TermKind::Iri => !t.value.contains('\n'),
        TermKind::BlankNode => true,
        TermKind::Literal { datatype, lang } => match datatype {
            Some(d) => !d.contains('\n'),
            None => true,
        },
    }
}

/// A key whose term can be dumped.
pub open spec fn dumpable(keys: Seq<Seq<char>>, id: u32) -> bool {
    id < keys.len() && readable(keys[id as int]) && one_line(key_term(keys[id as int]))
}

/// All identifiers of the triples can be dumped.
pub open spec fn all_dumpable(keys: Seq<Seq<char>>, ts: Seq<IdTriple>) -> bool {
    forall|i: int|
        0 <= i < ts.len() ==> dumpable(keys, (#[trigger] ts[i]).0) && dumpable(keys, ts[i].1)
            && dumpable(keys, ts[i].2)
}

/// A text without line breaks.
pub open spec fn unbroken(s: Seq<char>) -> bool {
    forall|i: int| 0 <= i < s.len() ==> (#[trigger] s[i]) != '\n'
}

proof fn lemma_unbroken_add(a: Seq<char>, b: Seq<char>)
    requires
        unbroken(a),
        unbroken(b),
    ensures
        unbroken(a + b),
{
    assert forall|i: int| 0 <= i < (a + b).len() implies (#[trigger] (a + b)[i]) != '\n' by {
        if i < a.len() {
            assert((a + b)[i] == a[i]);
        } else {
            assert((a + b)[i] == b[i - a.len()]);
        }
    }
}

proof fn lemma_unbroken(s: Seq<char>)
    requires
        !s.contains('\n') || no_white(s),
    ensures
        unbroken(s),
{
    assert forall|i: int| 0 <= i < s.len() implies (#[trigger] s[i]) != '\n' by {
        assert(s.contains(s[i]));
        assert(white('\n'));
    }
}

proof fn lemma_escaped_unbroken(s: Seq<char>)
    ensures
        unbroken(escaped(s)),
    decreases s.len(),
{
    if s.len() > 0 {
        lemma_escaped_unbroken(s.drop_last());
        assert(unbroken(escaped_char(s.last())));
        lemma_unbroken_add(escaped(s.drop_last()), escaped_char(s.last()));
    }
}

proof fn lemma_term_unbroken(t: TermText)
    requires
        one_line(t),
    ensures
        unbroken(term_text(t.value, t.typ)),
        term_text(t.value, t.typ).len() > 0,
        !white(term_text(t.value, t.typ)[0]),
        term_text(t.value, t.typ)[0] != '#',
{
    match t.typ {
        TermKind::Iri => {
            lemma_unbroken(t.value);
            lemma_unbroken_add(seq!['<'], t.value);
            lemma_unbroken_add(seq!['<'] + t.value, seq!['>']);
        },
        TermKind::BlankNode => {
            lemma_unbroken(t.value);
            lemma_unbroken_add(seq!['_', ':'], t.value);
        },
        TermKind::Literal { datatype, lang } => {
            lemma_escaped_unbroken(t.value);
            let quoted = seq!['"'] + escaped(t.value) + seq!['"'];
            lemma_unbroken_add(seq!['"'], escaped(t.value));
            lemma_unbroken_add(seq!['"'] + escaped(t.value), seq!['"']);
            match lang {
                Some(l) => {
                    lemma_unbroken(l);
                    lemma_unbroken_add(quoted, seq!['@']);
                    lemma_unbroken_add(quoted + seq!['@'], l);
                },
                None => match datatype {
                    Some(d) => {
                        lemma_unbroken(d);
                        lemma_unbroken_add(quoted, seq!['^', '^', '<']);
                        lemma_unbroken_add(quoted + seq!['^', '^', '<'], d);
                        lemma_unbroken_add(quoted + seq!['^', '^', '<'] + d, seq!['>']);
                    },
                    None => {},
                },
            }
        },
    }
}

/// The line of a triple adds the triple.
proof fn lemma_line(t: TripleText)
    requires
        one_line(t.subject),
        one_line(t.predicate),
        one_line(t.object),
    ensures
        unbroken(triple_line(t)),
        line_adds(triple_line(t)) == seq![t],
{
    let a = term_text(t.subject.value, t.subject.typ);
    let b = term_text(t.predicate.value, t.predicate.typ);
    let c = term_text(t.object.value, t.object.typ);
    lemma_term_unbroken(t.subject);
    lemma_term_unbroken(t.predicate);
    lemma_term_unbroken(t.object);
    lemma_unbroken_add(a, seq![' ']);
    lemma_unbroken_add(a + seq![' '], b);
    lemma_unbroken_add(a + seq![' '] + b, seq![' ']);
    lemma_unbroken_add(a + seq![' '] + b + seq![' '], c);
    lemma_unbroken_add(a + seq![' '] + b + seq![' '] + c, seq![' ', '.']);
    let line = triple_line(t);
    assert(line[0] == a[0]);
    assert(line.last() == '.');
    assert(crate::text::trimmed(line) == line);
    law_line_round_trip(t);
}

/// Lines that end in a line break, followed by another one.
proof fn lemma_document_push(a: Seq<char>, line: Seq<char>)
    requires
        a.len() == 0 || a.last() == '\n',
        unbroken(line),
    ensures
        document_triples(a + line + seq!['\n']) == document_triples(a) + line_adds(line),
    decreases a.len(),
{
    let stop = |c: char| c == '\n';
    let text = a + line + seq!['\n'];
    assert(line_adds(Seq::<char>::empty()) =~= Seq::<TripleText>::empty());
    if a.len() == 0 {
        assert(text =~= line + seq!['\n'] + Seq::<char>::empty());
        lemma_run_length(line, '\n', Seq::empty(), stop);
        assert(text.take(line.len() as int) =~= line);
        assert(text.skip(line.len() as int + 1) =~= Seq::<char>::empty());
        assert(document_triples(Seq::<char>::empty()) =~= Seq::<TripleText>::empty());
        assert(a =~= Seq::<char>::empty());
        assert(document_triples(text) =~= line_adds(line));
    } else {
        let n = run_length(a, stop) as int;
        lemma_run_bound(a);
        let head = a.take(n);
        let rest = a.skip(n + 1);
        assert(a =~= head + seq!['\n'] + rest);
        assert(text =~= head + seq!['\n'] + (rest + line + seq!['\n']));
        lemma_run_length(head, '\n', rest + line + seq!['\n'], stop);
        assert(text.take(n) =~= head);
        assert(text.skip(n + 1) =~= rest + line + seq!['\n']);
        if rest.len() > 0 {
            assert(rest.last() == a.last());
        }
        lemma_document_push(rest, line);
        assert(document_triples(text) =~= line_adds(head) + document_triples(rest) + line_adds(line));
    }
}

/// The first line of a text that ends in a line break ends inside it.
proof fn lemma_run_bound(a: Seq<char>)
    requires
        a.len() > 0,
        a.last() == '\n',
    ensures
        run_length(a, |c: char| c == '\n') < a.len(),
        a[run_length(a, |c: char| c == '\n') as int] == '\n',
        forall|i: int| 0 <= i < run_length(a, |c: char| c == '\n') ==> #[trigger] a[i] != '\n',
    decreases a.len(),
{
    let stop = |c: char| c == '\n';
    if !stop(a[0]) {
        let b = a.drop_first();
        assert(b.len() > 0) by {
            if a.len() == 1 {
                assert(a.last() == a[0]);
            }
        }
        assert(b.last() == a.last());
        lemma_run_bound(b);
        let n = run_length(b, stop) as int;
        assert(a[n + 1] == b[n]);
        assert forall|i: int| 0 <= i < n + 1 implies #[trigger] a[i] != '\n' by {
            if i > 0 {
                assert(a[i] == b[i - 1]);
            }
        }
    }
}

proof fn lemma_dump_ends(keys: Seq<Seq<char>>, ts: Seq<IdTriple>)
    ensures
        dumped(keys, ts).len() == 0 || dumped(keys, ts).last() == '\n',
{
    if ts.len() > 0 {
        assert(dumped(keys, ts).last() == '\n');
    }
}

/// Reading a dumped document gives the triples, in the order in which they were
/// dumped.
pub proof fn law_dump_reads_back(keys: Seq<Seq<char>>, ts: Seq<IdTriple>)
    requires
        all_dumpable(keys, ts),
    ensures
        document_triples(dumped(keys, ts)) == list_texts(keys, ts),
    decreases ts.len(),
{
    if ts.len() == 0 {
        assert(line_adds(Seq::<char>::empty()) =~= Seq::<TripleText>::empty());
        assert(document_triples(dumped(keys, ts)) =~= list_texts(keys, ts));
    } else {
        let rest = ts.drop_last();
        let t = ts.last();
        assert(ts[ts.len() - 1] == t);
        assert forall|i: int| 0 <= i < rest.len() implies dumpable(keys, (#[trigger] rest[i]).0)
            && dumpable(keys, rest[i].1) && dumpable(keys, rest[i].2) by {
            assert(rest[i] == ts[i]);
        }
        law_dump_reads_back(keys, rest);
        lemma_dump_ends(keys, rest);
        let x = id_texts(keys, t);
        lemma_line(x);
        lemma_document_push(dumped(keys, rest), triple_line(x));
        assert(dumped(keys, ts) =~= dumped(keys, rest) + triple_line(x) + seq!['\n']);
        assert(list_texts(keys, ts) =~= list_texts(keys, rest).push(x));
        assert(document_triples(dumped(keys, ts)) =~= list_texts(keys, ts));
    }
}

/// A store that is dumped and loaded again holds the same triples; only their
/// identifiers may be others.
pub proof fn law_dump_round_trip(keys: Seq<Seq<char>>, ts: Seq<IdTriple>)
    requires
        all_dumpable(keys, ts),
        keys_after(Seq::empty(), document_triples(dumped(keys, ts))).len() <= u32::MAX,
    ensures
        ({
            let doc = document_triples(dumped(keys, ts));
            let again = keys_after(Seq::empty(), doc);
            set_texts(again, triple_set(id_triples(again, doc))) == set_texts(keys, triple_set(ts))
        }),
{
    law_dump_reads_back(keys, ts);
    let doc = document_triples(dumped(keys, ts));
    let again = keys_after(Seq::empty(), doc);
    lemma_keys_after(Seq::empty(), doc);
    let ids = id_triples(again, doc);
    assert forall|i: int| 0 <= i < ts.len() implies id_texts(again, #[trigger] ids[i]) == id_texts(
        keys,
        ts[i],
    ) by {
        let x = doc[i];
        assert(x == list_texts(keys, ts)[i]);
        assert(x == id_texts(keys, ts[i]));
        assert(ids[i] == id_triple(again, x));
        assert(dumpable(keys, ts[i].0) && dumpable(keys, ts[i].1) && dumpable(keys, ts[i].2));
        assert(again.contains(text_key(x.subject)));
        assert(again.contains(text_key(x.predicate)));
        assert(again.contains(text_key(x.object)));
    }
    let a = set_texts(again, triple_set(ids));
    let b = set_texts(keys, triple_set(ts));
    assert forall|x: TripleText| a.contains(x) == b.contains(x) by {
        if a.contains(x) {
            let t = choose|t: IdTriple| #[trigger] triple_set(ids).contains(t) && id_texts(again, t) == x;
            let i = choose|i: int| 0 <= i < ids.len() && ids[i] == t;
            assert(ts.contains(ts[i]));
            assert(triple_set(ts).contains(ts[i]));
        }
        if b.contains(x) {
            let t = choose|t: IdTriple| #[trigger] triple_set(ts).contains(t) && id_texts(keys, t) == x;
            let i = choose|i: int| 0 <= i < ts.len() && ts[i] == t;
            assert(ids.contains(ids[i]));
            assert(triple_set(ids).contains(ids[i]));
        }
    }
    assert(a =~= b);
}

} // verus!
