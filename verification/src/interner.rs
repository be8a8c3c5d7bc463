//! The string interner behind the dictionary.
//!
//! An interner is seen as the sequence of its strings in the order in which
//! they came; a string's symbol is its position.

use string_interner::backend::StringBackend;
use string_interner::symbol::SymbolU32;
use string_interner::{StringInterner, Symbol};
use vstd::prelude::*;

verus! {

/// Strings in one arena, each under the position at which it was added.
#[verifier::external_body]
pub struct Interner {
    inner: StringInterner<StringBackend<SymbolU32>>,
}

/// The strings of an interner, in the order in which they were added.
pub uninterp spec fn interned(i: Interner) -> Seq<Seq<char>>;

/// `StringInterner::new`: no strings.
#[verifier::external_body]
pub(crate) fn interner_new() -> (r: Interner)
    ensures
        interned(r).len() == 0,
{
    Interner { inner: StringInterner::new() }
}

/// `StringInterner::len`: the number of strings.
#[verifier::external_body]
pub(crate) fn interner_len(i: &Interner) -> (n: usize)
    ensures
        n == interned(*i).len(),
{
    i.inner.len()
}

/// `StringInterner::get`: the position of the string, if it was added.
#[verifier::external_body]
pub(crate) fn interner_get(i: &Interner, s: &str) -> (r: Option<usize>)
    ensures
        match r {
            Some(k) => k < interned(*i).len() && interned(*i)[k as int] == s@,
            None => !interned(*i).contains(s@),
        },
{
    i.inner.get(s).map(|k| k.to_usize())
}

/// `StringInterner::get_or_intern`: the position of the string, which is added
/// at the end if it was not there. The symbols of the interner run out at
/// `u32::MAX` strings.
#[verifier::external_body]
pub(crate) fn interner_add(i: &mut Interner, s: &str) -> (k: usize)
    requires
        interned(*old(i)).len() < u32::MAX,
    ensures
        interned(*final(i)) == (if interned(*old(i)).contains(s@) {
            interned(*old(i))
        } else {
            interned(*old(i)).push(s@)
        }),
        k < interned(*final(i)).len() && interned(*final(i))[k as int] == s@,
{
    i.inner.get_or_intern(s).to_usize()
}

/// `StringInterner::resolve`: the string at a position, if there is one.
#[verifier::external_body]
pub(crate) fn interner_resolve(i: &Interner, k: u32) -> (r: Option<&str>)
    requires
        interned(*i).len() <= u32::MAX,
    ensures
        match r {
            Some(s) => k < interned(*i).len() && s@ == interned(*i)[k as int],
            None => k >= interned(*i).len(),
        },
{
    SymbolU32::try_from_usize(k as usize).and_then(|s| i.inner.resolve(s))
}

/// `StringInterner::clone`: the same strings at the same positions.
#[verifier::external_body]
pub(crate) fn interner_clone(i: &Interner) -> (r: Interner)
    ensures
        interned(r) == interned(*i),
{
    Interner { inner: i.inner.clone() }
}

} // verus!
