//! Answers that were given, kept for the next time they are asked for.

use lru::LruCache;
use std::num::NonZeroUsize;
use vstd::prelude::*;

verus! {

/// The cache of `lru`, carried as an opaque value.
#[verifier::external_type_specification]
#[verifier::external_body]
#[verifier::reject_recursive_types(K)]
#[verifier::reject_recursive_types(V)]
#[verifier::reject_recursive_types(S)]
pub struct ExLruCache<K, V, S>(LruCache<K, V, S>);

/// The hasher of `lru`, carried as an opaque type parameter.
#[verifier::external_type_specification]
#[verifier::external_body]
pub struct ExDefaultHasher(lru::DefaultHasher);

/// Entries of a cache: keys with their values, the latest used first.
pub type Entries = Seq<(Seq<char>, Seq<char>)>;

/// What a cache holds.
pub uninterp spec fn cached(c: LruCache<String, String>) -> Seq<(Seq<char>, Seq<char>)>;

/// How many entries a cache can hold.
pub uninterp spec fn cache_limit(c: LruCache<String, String>) -> nat;

/// The entries with other keys.
pub open spec fn without(s: Entries, key: Seq<char>) -> Entries {
    s.filter(|e: (Seq<char>, Seq<char>)| e.0 != key)
}

/// Whether there is an entry under a key.
pub open spec fn has_entry(s: Entries, key: Seq<char>) -> bool {
    exists|i: int| 0 <= i < s.len() && (#[trigger] s[i]).0 == key
}

/// The entries after one was put: it is in front. The last one goes if there is no
/// room.
pub open spec fn after_put(s: Entries, limit: nat, key: Seq<char>, value: Seq<char>) -> Entries {
    if has_entry(s, key) {
        seq![(key, value)] + without(s, key)
    } else if s.len() < limit {
        seq![(key, value)] + s
    } else {
        seq![(key, value)] + s.drop_last()
    }
}

/// `LruCache::new`: a cache for so many entries, without any.
#[verifier::external_body]
fn lru_new(limit: usize) -> (c: LruCache<String, String>)
    requires
        limit > 0,
    ensures
        cached(c).len() == 0,
        cache_limit(c) == limit,
{
    LruCache::new(NonZeroUsize::new(limit).unwrap())
}

/// `LruCache::peek`: the value under a key, if there is one; the order of the
/// entries stays.
#[verifier::external_body]
fn lru_peek<'a>(c: &'a LruCache<String, String>, key: &str) -> (r: Option<&'a String>)
    ensures
        match r {
            Some(v) => cached(*c).contains((key@, v@)),
            None => !has_entry(cached(*c), key@),
        },
{
    c.peek(key)
}

/// `LruCache::put`: the value is under the key, as the entry used last; where there
/// is no room for a new key, the entry whose use is longest ago goes.
#[verifier::external_body]
fn lru_put(c: &mut LruCache<String, String>, key: String, value: String)
    ensures
        cached(*final(c)) == after_put(cached(*old(c)), cache_limit(*old(c)), key@, value@),
        cache_limit(*final(c)) == cache_limit(*old(c)),
{
    c.put(key, value);
}

/// `LruCache::clear`: no entries are left.
#[verifier::external_body]
fn lru_clear(c: &mut LruCache<String, String>)
    ensures
        cached(*final(c)).len() == 0,
        cache_limit(*final(c)) == cache_limit(*old(c)),
{
    c.clear();
}

/// How many answers are kept.
pub const DEFAULT_CACHE_SIZE: usize = 256;

/// Answers by the request that they answer.
pub struct AnswerCache {
    pub entries: LruCache<String, String>,
}

impl View for AnswerCache {
    type V = Entries;

    open spec fn view(&self) -> Entries {
        cached(self.entries)
    }
}

/// The key of a query. The same text has other answers with inference.
pub open spec fn cache_key(text: Seq<char>, infer: bool) -> Seq<char> {
    seq![if infer {
        '+'
    } else {
        '-'
    }] + text
}

fn make_key(text: &str, infer: bool) -> (key: String)
    ensures
        key@ == cache_key(text@, infer),
{
    let mut key: String = String::new();
    key.push(
        if infer {
            '+'
        } else {
            '-'
        },
    );
    key.push_str(text);
    assert(key@ =~= cache_key(text@, infer));
    key
}

impl AnswerCache {
    /// It holds as many answers as [`DEFAULT_CACHE_SIZE`] says.
    pub open spec fn wf(&self) -> bool {
        cache_limit(self.entries) == DEFAULT_CACHE_SIZE
    }

    pub fn new() -> (r: AnswerCache)
        ensures
            r.wf(),
            r@ == Seq::<(Seq<char>, Seq<char>)>::empty(),
    {
        let r = AnswerCache { entries: lru_new(DEFAULT_CACHE_SIZE) };
        assert(r@ =~= Seq::empty());
        r
    }

    /// The answer to a query, if it is kept.
    pub fn recall(&self, text: &str, infer: bool) -> (r: Option<&String>)
        ensures
            match r {
                Some(v) => self@.contains((cache_key(text@, infer), v@)),
                None => !has_entry(self@, cache_key(text@, infer)),
            },
    {
        let key: String = make_key(text, infer);
        lru_peek(&self.entries, key.as_str())
    }

    /// Keeps the answer to a query.
    pub fn remember(&mut self, text: &str, infer: bool, answer: String)
        requires
            old(self).wf(),
        ensures
            final(self).wf(),
            final(self)@ == after_put(
                old(self)@,
                DEFAULT_CACHE_SIZE as nat,
                cache_key(text@, infer),
                answer@,
            ),
    {
        let key: String = make_key(text, infer);
        lru_put(&mut self.entries, key, answer);
    }

    /// Forgets all answers.
    pub fn clear(&mut self)
        requires
            old(self).wf(),
        ensures
            final(self).wf(),
            final(self)@ == Seq::<(Seq<char>, Seq<char>)>::empty(),
    {
        lru_clear(&mut self.entries);
        assert(self@ =~= Seq::empty());
    }
}

/// Different queries, and the same query with and without inference, have
/// different keys.
pub proof fn law_cache_keys(a: Seq<char>, b: Seq<char>, x: bool, y: bool)
    requires
        a != b || x != y,
    ensures
        cache_key(a, x) != cache_key(b, y),
{
    if cache_key(a, x) == cache_key(b, y) {
        assert(cache_key(a, x)[0] == cache_key(b, y)[0]);
        assert(a =~= cache_key(a, x).skip(1));
        assert(b =~= cache_key(b, y).skip(1));
    }
}

/// Every entry is as it should be.
pub open spec fn all_good(s: Entries, good: spec_fn(Seq<char>, Seq<char>) -> bool) -> bool {
    forall|i: int| 0 <= i < s.len() ==> good((#[trigger] s[i]).0, s[i].1)
}

/// No key has two entries.
pub open spec fn single(s: Entries) -> bool {
    forall|i: int, j: int|
        0 <= i < s.len() && 0 <= j < s.len() && (#[trigger] s[i]).0 == (#[trigger] s[j]).0 ==> i == j
}

proof fn lemma_without(s: Entries, key: Seq<char>)
    requires
        single(s),
    ensures
        single(without(s, key)),
        without(s, key).len() <= s.len(),
        has_entry(s, key) ==> without(s, key).len() < s.len(),
        forall|i: int|
            0 <= i < without(s, key).len() ==> (#[trigger] without(s, key)[i]).0 != key && s.contains(
                without(s, key)[i],
            ),
    decreases s.len(),
{
    let keep = |e: (Seq<char>, Seq<char>)| e.0 != key;
    reveal(Seq::filter);
    if s.len() > 0 {
        let t = s.drop_last();
        assert(single(t)) by {
            assert forall|i: int, j: int|
                0 <= i < t.len() && 0 <= j < t.len() && (#[trigger] t[i]).0 == (
                #[trigger] t[j]).0 implies i == j by {
                assert(t[i] == s[i] && t[j] == s[j]);
            }
        }
        lemma_without(t, key);
        let w = without(t, key);
        assert(without(s, key) == if keep(s.last()) {
            w.push(s.last())
        } else {
            w
        });
        assert forall|i: int| 0 <= i < without(s, key).len() implies (#[trigger] without(s, key)[i]).0
            != key && s.contains(without(s, key)[i]) by {
            if i < w.len() {
                assert(w[i].0 != key && t.contains(w[i]));
                let k = choose|k: int| 0 <= k < t.len() && t[k] == w[i];
                assert(s[k] == w[i]);
            } else {
                assert(s[s.len() - 1] == s.last());
            }
        }
        assert forall|i: int, j: int|
            0 <= i < without(s, key).len() && 0 <= j < without(s, key).len() && (#[trigger] without(
                s,
                key,
            )[i]).0 == (#[trigger] without(s, key)[j]).0 implies i == j by {
            if i < w.len() && j < w.len() {
                assert(w[i].0 == w[j].0);
            } else if i < w.len() || j < w.len() {
                let m = if i < w.len() {
                    i
                } else {
                    j
                };
                let k = choose|k: int| 0 <= k < t.len() && t[k] == w[m];
                assert(t.contains(w[m]));
                assert(s[k] == w[m]);
                assert(s[s.len() - 1] == s.last());
            }
        }
        if has_entry(s, key) && keep(s.last()) {
            let i = choose|i: int| 0 <= i < s.len() && (#[trigger] s[i]).0 == key;
            assert(t[i].0 == key);
            assert(has_entry(t, key));
        }
    }
}

/// A cache never holds more than it may, holds an answer for each request at most
/// once, gives back what was kept last, and holds only answers that hold as long
/// as only such answers are kept: so after an update, which forgets all, no answer
/// of the time before comes back.
pub proof fn law_cache(
    s: Entries,
    limit: nat,
    key: Seq<char>,
    value: Seq<char>,
    good: spec_fn(Seq<char>, Seq<char>) -> bool,
)
    requires
        limit > 0,
        s.len() <= limit,
        single(s),
        all_good(s, good),
        good(key, value),
    ensures
        after_put(s, limit, key, value).len() <= limit,
        single(after_put(s, limit, key, value)),
        all_good(after_put(s, limit, key, value), good),
        after_put(s, limit, key, value)[0] == (key, value),
        forall|v: Seq<char>| #[trigger]
            after_put(s, limit, key, value).contains((key, v)) ==> v == value,
        all_good(Seq::empty(), good),
{
    let out = after_put(s, limit, key, value);
    let rest = if has_entry(s, key) {
        without(s, key)
    } else if s.len() < limit {
        s
    } else {
        s.drop_last()
    };
    lemma_without(s, key);
    assert(out =~= seq![(key, value)] + rest);
    assert forall|i: int| 0 <= i < rest.len() implies (#[trigger] rest[i]).0 != key && s.contains(rest[i]) by {
        if !has_entry(s, key) {
            assert(rest[i] == s[i]);
        }
    }
    assert forall|i: int| 0 <= i < out.len() implies good((#[trigger] out[i]).0, out[i].1) by {
        if i > 0 {
            assert(out[i] == rest[i - 1]);
            let k = choose|k: int| 0 <= k < s.len() && s[k] == rest[i - 1];
            assert(good(s[k].0, s[k].1));
        }
    }
    assert forall|i: int, j: int|
        0 <= i < out.len() && 0 <= j < out.len() && (#[trigger] out[i]).0 == (
        #[trigger] out[j]).0 implies i == j by {
        if i > 0 {
            assert(out[i] == rest[i - 1]);
        }
        if j > 0 {
            assert(out[j] == rest[j - 1]);
        }
        if i > 0 && j > 0 && !has_entry(s, key) {
            assert(rest[i - 1] == s[i - 1] && rest[j - 1] == s[j - 1]);
        }
    }
    assert forall|v: Seq<char>| #[trigger] out.contains((key, v)) implies v == value by {
        let i = choose|i: int| 0 <= i < out.len() && out[i] == (key, v);
        assert(out[0].0 == out[i].0);
    }
}

} // verus!
