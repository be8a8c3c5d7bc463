//! The text form of the algebra: nested lists of words in round brackets.

use crate::text::{chars_of, is_white, string_of, white};
use vstd::prelude::*;
use vstd::slice::slice_subrange;

verus! {

/// A word or a list.
#[derive(Debug)]
pub enum Sexp {
    Atom(String),
    List(Vec<Sexp>),
}

#[verifier::ext_equal]
pub enum Tree {
    Atom(Seq<char>),
    List(Seq<Tree>),
}

impl Sexp {
    pub open spec fn view(&self) -> Tree
        decreases self,
    {
        match self {
            Sexp::Atom(a) => Tree::Atom(a@),
            Sexp::List(v) => Tree::List(
                Seq::new(
                    v@.len(),
                    |i: int|
                        if 0 <= i < v@.len() {
                            v@[i].view()
                        } else {
                            arbitrary()
                        },
                ),
            ),
        }
    }
}

/// The trees of a list.
pub open spec fn trees(v: Seq<Sexp>) -> Seq<Tree> {
    v.map_values(|x: Sexp| x.view())
}

pub proof fn lemma_list_view(x: Sexp)
    requires
        x is List,
    ensures
        x.view() == Tree::List(trees(x->List_0@)),
{
    let v = x->List_0;
    assert(x.view()->List_0 =~= trees(v@));
}

/// Where white space that begins at `i` ends.
pub open spec fn white_from(s: Seq<char>, i: int) -> int
    decreases s.len() - i,
{
    if 0 <= i < s.len() && white(s[i]) {
        white_from(s, i + 1)
    } else {
        i
    }
}

/// The characters that end a word.
pub open spec fn ends_word(c: char) -> bool {
    white(c) || c == '(' || c == ')'
}

pub open spec fn word_from(s: Seq<char>, i: int) -> int
    decreases s.len() - i,
{
    if 0 <= i < s.len() && !ends_word(s[i]) {
        word_from(s, i + 1)
    } else {
        i
    }
}

/// The place behind the closing angle bracket.
pub open spec fn angle_from(s: Seq<char>, i: int) -> int
    decreases s.len() - i,
{
    if 0 <= i < s.len() {
        if s[i] == '>' {
            i + 1
        } else {
            angle_from(s, i + 1)
        }
    } else {
        i
    }
}

/// The place behind the closing quote.
pub open spec fn quote_from(s: Seq<char>, i: int) -> int
    decreases s.len() - i,
{
    if 0 <= i < s.len() {
        if s[i] == '"' {
            i + 1
        } else if s[i] == '\\' && i + 1 < s.len() {
            quote_from(s, i + 2)
        } else {
            quote_from(s, i + 1)
        }
    } else {
        i
    }
}

/// The place behind the word that begins at `i`: a quoted text with its tag or
/// datatype, an IRI in angle brackets, or plain characters.
pub open spec fn atom_end(s: Seq<char>, i: int) -> int {
    if s[i] == '"' {
        let q = quote_from(s, i + 1);
        if q < s.len() && s[q] == '@' {
            word_from(s, q)
        } else if q + 2 < s.len() && s[q] == '^' && s[q + 1] == '^' && s[q + 2] == '<' {
            angle_from(s, q + 2)
        } else {
            q
        }
    } else if s[i] == '<' && i + 1 < s.len() && !white(s[i + 1]) && s[i + 1] != '=' {
        angle_from(s, i)
    } else {
        word_from(s, i)
    }
}

/// The tree that begins at `i`, and the place behind it.
pub open spec fn tree_at(s: Seq<char>, i: int) -> Option<(Tree, int)>
    decreases s.len() - i, 0nat,
{
    let j = white_from(s, i);
    if j < i || j >= s.len() || s[j] == ')' {
        None
    } else if s[j] == '(' {
        match items_at(s, j + 1) {
            Some((items, k)) => Some((Tree::List(items), k)),
            None => None,
        }
    } else {
        let k = atom_end(s, j);
        Some((Tree::Atom(s.subrange(j, k)), k))
    }
}

/// The trees up to the closing bracket, and the place behind it.
pub open spec fn items_at(s: Seq<char>, i: int) -> Option<(Seq<Tree>, int)>
    decreases s.len() - i, 1nat,
{
    let j = white_from(s, i);
    if j < i || j >= s.len() {
        None
    } else if s[j] == ')' {
        Some((Seq::empty(), j + 1))
    } else {
        match tree_at(s, i) {
            Some((t, k)) => if k <= i || k > s.len() {
                None
            } else {
                match items_at(s, k) {
                    Some((rest, m)) => Some((seq![t] + rest, m)),
                    None => None,
                }
            },
            None => None,
        }
    }
}

/// The tree that a whole text stands for.
pub open spec fn tree_of(s: Seq<char>) -> Option<Tree> {
    match tree_at(s, 0) {
        Some((t, k)) => if white_from(s, k) == s.len() {
            Some(t)
        } else {
            None
        },
        None => None,
    }
}

fn skip_white_from(cs: &[char], i: usize) -> (j: usize)
    requires
        i <= cs@.len(),
    ensures
        i <= j <= cs@.len(),
        j == white_from(cs@, i as int),
        j < cs@.len() ==> !white(cs@[j as int]),
{
    let mut j: usize = i;
    while j < cs.len() && is_white(cs[j])
        invariant
            i <= j <= cs@.len(),
            white_from(cs@, i as int) == white_from(cs@, j as int),
        decreases cs@.len() - j,
    {
        j += 1;
    }
    j
}

fn word_end(cs: &[char], i: usize) -> (j: usize)
    requires
        i <= cs@.len(),
    ensures
        i <= j <= cs@.len(),
        j == word_from(cs@, i as int),
        i < cs@.len() && !ends_word(cs@[i as int]) ==> j > i,
{
    let mut j: usize = i;
    while j < cs.len() && !is_white(cs[j]) && cs[j] != '(' && cs[j] != ')'
        invariant
            i <= j <= cs@.len(),
            word_from(cs@, i as int) == word_from(cs@, j as int),
        decreases cs@.len() - j,
    {
        j += 1;
    }
    j
}

fn angle_end(cs: &[char], i: usize) -> (j: usize)
    requires
        i <= cs@.len(),
    ensures
        i <= j <= cs@.len(),
        j == angle_from(cs@, i as int),
        i < cs@.len() ==> j > i,
{
    let mut j: usize = i;
    while j < cs.len()
        invariant
            i <= j <= cs@.len(),
            angle_from(cs@, i as int) == angle_from(cs@, j as int),
        decreases cs@.len() - j,
    {
        if cs[j] == '>' {
            return j + 1;
        }
        j += 1;
    }
    j
}

fn quote_end(cs: &[char], i: usize) -> (j: usize)
    requires
        i <= cs@.len(),
    ensures
        i <= j <= cs@.len(),
        j == quote_from(cs@, i as int),
{
    let n: usize = cs.len();
    let mut j: usize = i;
    while j < n
        invariant
            n == cs@.len(),
            i <= j <= n,
            quote_from(cs@, i as int) == quote_from(cs@, j as int),
        decreases n - j,
    {
        if cs[j] == '"' {
            return j + 1;
        }
        if cs[j] == '\\' && n - j > 1 {
            j += 2;
        } else {
            j += 1;
        }
    }
    j
}

fn find_atom_end(cs: &[char], i: usize) -> (k: usize)
    requires
        i < cs@.len(),
        !ends_word(cs@[i as int]),
    ensures
        i < k <= cs@.len(),
        k == atom_end(cs@, i as int),
{
    let n: usize = cs.len();
    if cs[i] == '"' {
        let q: usize = quote_end(cs, i + 1);
        if q < n && cs[q] == '@' {
            word_end(cs, q)
        } else if n - q > 2 && cs[q] == '^' && cs[q + 1] == '^' && cs[q + 2] == '<' {
            angle_end(cs, q + 2)
        } else {
            q
        }
    } else if cs[i] == '<' && n - i > 1 && !is_white(cs[i + 1]) && cs[i + 1] != '=' {
        angle_end(cs, i)
    } else {
        word_end(cs, i)
    }
}

fn read_tree(cs: &[char], i: usize) -> (r: Option<(Sexp, usize)>)
    requires
        i <= cs@.len(),
    ensures
        match r {
            Some((x, k)) => i < k <= cs@.len() && tree_at(cs@, i as int) == Some((x.view(), k as int)),
            None => tree_at(cs@, i as int) is None,
        },
    decreases cs@.len() - i, 0nat,
{
    let j: usize = skip_white_from(cs, i);
    let n: usize = cs.len();
    if j >= n || cs[j] == ')' {
        return None;
    }
    if cs[j] == '(' {
        match read_items(cs, j + 1) {
            Some((items, k)) => {
                let x: Sexp = Sexp::List(items);
                proof {
                    lemma_list_view(x);
                }
                Some((x, k))
            },
            None => None,
        }
    } else {
        let k: usize = find_atom_end(cs, j);
        Some((Sexp::Atom(string_of(slice_subrange(cs, j, k))), k))
    }
}

fn read_items(cs: &[char], i: usize) -> (r: Option<(Vec<Sexp>, usize)>)
    requires
        i <= cs@.len(),
    ensures
        match r {
            Some((v, k)) => i < k <= cs@.len() && items_at(cs@, i as int) == Some((trees(v@), k as int)),
            None => items_at(cs@, i as int) is None,
        },
    decreases cs@.len() - i, 1nat,
{
    let mut v: Vec<Sexp> = Vec::new();
    let mut k: usize = i;
    let n: usize = cs.len();
    loop
        invariant
            n == cs@.len(),
            i <= k <= n,
            items_at(cs@, i as int) == (match items_at(cs@, k as int) {
                Some((rest, m)) => Some((trees(v@) + rest, m)),
                None => None,
            }),
            k == i ==> v@.len() == 0,
        decreases n - k,
    {
        let j: usize = skip_white_from(cs, k);
        if j >= n {
            return None;
        }
        if cs[j] == ')' {
            assert(trees(v@) + Seq::<Tree>::empty() =~= trees(v@));
            return Some((v, j + 1));
        }
        match read_tree(cs, k) {
            Some((x, next)) => {
                let ghost before = trees(v@);
                let ghost t = x.view();
                v.push(x);
                proof {
                    assert(trees(v@) =~= before.push(t));
                    if let Some((rest, m)) = items_at(cs@, next as int) {
                        assert(before + (seq![t] + rest) =~= trees(v@) + rest);
                    }
                }
                k = next;
            },
            None => {
                return None;
            },
        }
    }
}

/// Reads a text as a tree.
pub fn read_sexp(text: &str) -> (r: Option<Sexp>)
    ensures
        match r {
            Some(x) => tree_of(text@) == Some(x.view()),
            None => tree_of(text@) is None,
        },
{
    let cs: Vec<char> = chars_of(text);
    match read_tree(cs.as_slice(), 0) {
        Some((x, k)) => {
            let end: usize = skip_white_from(cs.as_slice(), k);
            if end == cs.len() {
                Some(x)
            } else {
                None
            }
        },
        None => None,
    }
}

} // verus!
