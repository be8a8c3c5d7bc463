//! Byte sequences: little-endian numbers, lexicographic order, UTF-8.

use vstd::bytes::{
    spec_u32_from_le_bytes, spec_u32_to_le_bytes, spec_u64_from_le_bytes, spec_u64_to_le_bytes,
    u32_from_le_bytes, u32_to_le_bytes, u64_from_le_bytes, u64_to_le_bytes,
};
use vstd::prelude::*;
use vstd::slice::slice_subrange;
use vstd::string::StringSliceAdditionalSpecFns;
use vstd::utf8::{encode_utf8, valid_utf8};

verus! {

/// The little-endian `u32` at a position.
pub open spec fn le32(b: Seq<u8>, p: int) -> u32 {
    spec_u32_from_le_bytes(b.subrange(p, p + 4))
}

/// The little-endian `u64` at a position.
pub open spec fn le64(b: Seq<u8>, p: int) -> u64 {
    spec_u64_from_le_bytes(b.subrange(p, p + 8))
}

pub fn read_u32(b: &[u8], p: usize) -> (x: u32)
    requires
        p + 4 <= b@.len(),
    ensures
        x == le32(b@, p as int),
{
    let n: usize = b.len();
    assert(p + 4 <= n);
    u32_from_le_bytes(slice_subrange(b, p, p + 4))
}

pub fn read_u64(b: &[u8], p: usize) -> (x: u64)
    requires
        p + 8 <= b@.len(),
    ensures
        x == le64(b@, p as int),
{
    let n: usize = b.len();
    assert(p + 8 <= n);
    u64_from_le_bytes(slice_subrange(b, p, p + 8))
}

pub fn push_u32(buf: &mut Vec<u8>, x: u32)
    ensures
        final(buf)@ == old(buf)@ + spec_u32_to_le_bytes(x),
        final(buf)@.len() == old(buf)@.len() + 4,
{
    let mut b: Vec<u8> = u32_to_le_bytes(x);
    buf.append(&mut b);
}

pub fn push_u64(buf: &mut Vec<u8>, x: u64)
    ensures
        final(buf)@ == old(buf)@ + spec_u64_to_le_bytes(x),
        final(buf)@.len() == old(buf)@.len() + 8,
{
    let mut b: Vec<u8> = u64_to_le_bytes(x);
    buf.append(&mut b);
}

/// What was written is what is read, wherever it stands.
pub proof fn lemma_le32(head: Seq<u8>, x: u32, tail: Seq<u8>)
    ensures
        le32(head + spec_u32_to_le_bytes(x) + tail, head.len() as int) == x,
        spec_u32_to_le_bytes(x).len() == 4,
{
    vstd::bytes::lemma_auto_spec_u32_to_from_le_bytes();
    let b = head + spec_u32_to_le_bytes(x) + tail;
    assert(b.subrange(head.len() as int, head.len() as int + 4) =~= spec_u32_to_le_bytes(x));
}

pub proof fn lemma_le64(head: Seq<u8>, x: u64, tail: Seq<u8>)
    ensures
        le64(head + spec_u64_to_le_bytes(x) + tail, head.len() as int) == x,
        spec_u64_to_le_bytes(x).len() == 8,
{
    vstd::bytes::lemma_auto_spec_u64_to_from_le_bytes();
    let b = head + spec_u64_to_le_bytes(x) + tail;
    assert(b.subrange(head.len() as int, head.len() as int + 8) =~= spec_u64_to_le_bytes(x));
}

/// How two byte sequences stand to each other.
#[derive(Clone, Copy, PartialEq, Eq, Structural)]
pub enum Side {
    Before,
    Same,
    After,
}

/// Lexicographic order.
pub open spec fn side(a: Seq<u8>, b: Seq<u8>) -> Side
    decreases a.len(),
{
    if a.len() == 0 {
        if b.len() == 0 {
            Side::Same
        } else {
            Side::Before
        }
    } else if b.len() == 0 {
        Side::After
    } else if a[0] < b[0] {
        Side::Before
    } else if b[0] < a[0] {
        Side::After
    } else {
        side(a.drop_first(), b.drop_first())
    }
}

/// Only equal sequences stand at the same place, and the order is antisymmetric.
pub proof fn lemma_side(a: Seq<u8>, b: Seq<u8>)
    ensures
        side(a, b) == Side::Same <==> a == b,
        side(a, b) == Side::Before <==> side(b, a) == Side::After,
        side(a, b) == Side::After <==> side(b, a) == Side::Before,
    decreases a.len(),
{
    if a.len() > 0 && b.len() > 0 && a[0] == b[0] {
        lemma_side(a.drop_first(), b.drop_first());
        assert(a =~= seq![a[0]] + a.drop_first());
        assert(b =~= seq![b[0]] + b.drop_first());
    } else if a.len() == 0 && b.len() == 0 {
        assert(a =~= b);
    }
}

pub proof fn lemma_side_transitive(a: Seq<u8>, b: Seq<u8>, c: Seq<u8>)
    requires
        side(a, b) == Side::Before,
        side(b, c) == Side::Before,
    ensures
        side(a, c) == Side::Before,
    decreases a.len(),
{
    if a.len() > 0 && a[0] == b[0] && b[0] == c[0] {
        lemma_side_transitive(a.drop_first(), b.drop_first(), c.drop_first());
    }
}

pub fn compare_bytes(a: &[u8], b: &[u8]) -> (r: Side)
    ensures
        r == side(a@, b@),
{
    let mut i: usize = 0;
    assert(a@.skip(0) =~= a@);
    assert(b@.skip(0) =~= b@);
    while i < a.len() && i < b.len()
        invariant
            i <= a@.len(),
            i <= b@.len(),
            side(a@, b@) == side(a@.skip(i as int), b@.skip(i as int)),
        decreases a@.len() - i,
    {
        let x: u8 = a[i];
        let y: u8 = b[i];
        if x < y {
            return Side::Before;
        }
        if y < x {
            return Side::After;
        }
        assert(a@.skip(i as int).drop_first() =~= a@.skip(i + 1));
        assert(b@.skip(i as int).drop_first() =~= b@.skip(i + 1));
        i += 1;
    }
    if i < a.len() {
        Side::After
    } else if i < b.len() {
        Side::Before
    } else {
        Side::Same
    }
}

/// `std::str::from_utf8`: the text that the bytes encode, if they are UTF-8.
#[verifier::external_body]
pub(crate) fn utf8_text(b: &[u8]) -> (r: Option<&str>)
    ensures
        match r {
            Some(s) => encode_utf8(s@) == b@,
            None => !valid_utf8(b@),
        },
{
    std::str::from_utf8(b).ok()
}

/// Different texts have different bytes.
pub proof fn lemma_utf8_injective(a: Seq<char>, b: Seq<char>)
    requires
        encode_utf8(a) == encode_utf8(b),
    ensures
        a == b,
{
    vstd::utf8::encode_utf8_decode_utf8(a);
    vstd::utf8::encode_utf8_decode_utf8(b);
}

/// The bytes of a list of numbers, one after the other.
pub open spec fn u32s_bytes(v: Seq<u32>) -> Seq<u8>
    decreases v.len(),
{
    if v.len() == 0 {
        Seq::empty()
    } else {
        u32s_bytes(v.drop_last()) + spec_u32_to_le_bytes(v.last())
    }
}

pub open spec fn u64s_bytes(v: Seq<u64>) -> Seq<u8>
    decreases v.len(),
{
    if v.len() == 0 {
        Seq::empty()
    } else {
        u64s_bytes(v.drop_last()) + spec_u64_to_le_bytes(v.last())
    }
}

/// Each number of a list can be read at its place.
pub proof fn lemma_u32s_bytes(v: Seq<u32>)
    ensures
        u32s_bytes(v).len() == 4 * v.len(),
        forall|i: int| 0 <= i < v.len() ==> #[trigger] le32(u32s_bytes(v), 4 * i) == v[i],
    decreases v.len(),
{
    vstd::bytes::lemma_auto_spec_u32_to_from_le_bytes();
    if v.len() > 0 {
        let w = v.drop_last();
        lemma_u32s_bytes(w);
        let b = u32s_bytes(v);
        let x = spec_u32_to_le_bytes(v.last());
        assert(x.len() == 4);
        assert forall|i: int| 0 <= i < v.len() implies #[trigger] le32(b, 4 * i) == v[i] by {
            if i < w.len() {
                assert(b.subrange(4 * i, 4 * i + 4) =~= u32s_bytes(w).subrange(4 * i, 4 * i + 4));
                assert(w[i] == v[i]);
                assert(le32(u32s_bytes(w), 4 * i) == w[i]);
            } else {
                lemma_le32(u32s_bytes(w), v.last(), Seq::empty());
                assert(u32s_bytes(w) + x + Seq::<u8>::empty() =~= b);
            }
        }
    }
}

pub proof fn lemma_u64s_bytes(v: Seq<u64>)
    ensures
        u64s_bytes(v).len() == 8 * v.len(),
        forall|i: int| 0 <= i < v.len() ==> #[trigger] le64(u64s_bytes(v), 8 * i) == v[i],
    decreases v.len(),
{
    vstd::bytes::lemma_auto_spec_u64_to_from_le_bytes();
    if v.len() > 0 {
        let w = v.drop_last();
        lemma_u64s_bytes(w);
        let b = u64s_bytes(v);
        let x = spec_u64_to_le_bytes(v.last());
        assert(x.len() == 8);
        assert forall|i: int| 0 <= i < v.len() implies #[trigger] le64(b, 8 * i) == v[i] by {
            if i < w.len() {
                assert(b.subrange(8 * i, 8 * i + 8) =~= u64s_bytes(w).subrange(8 * i, 8 * i + 8));
                assert(w[i] == v[i]);
                assert(le64(u64s_bytes(w), 8 * i) == w[i]);
            } else {
                lemma_le64(u64s_bytes(w), v.last(), Seq::empty());
                assert(u64s_bytes(w) + x + Seq::<u8>::empty() =~= b);
            }
        }
    }
}

pub fn push_u32s(buf: &mut Vec<u8>, v: &[u32])
    ensures
        final(buf)@ == old(buf)@ + u32s_bytes(v@),
{
    let mut i: usize = 0;
    let ghost before = buf@;
    assert(v@.take(0) =~= Seq::<u32>::empty());
    assert(before + u32s_bytes(v@.take(0)) =~= before);
    while i < v.len()
        invariant
            i <= v@.len(),
            buf@ == before + u32s_bytes(v@.take(i as int)),
        decreases v@.len() - i,
    {
        push_u32(buf, v[i]);
        i += 1;
        proof {
            let t = v@.take(i as int);
            assert(t.drop_last() =~= v@.take(i - 1));
            assert(buf@ =~= before + u32s_bytes(t));
        }
    }
    assert(v@.take(i as int) =~= v@);
}

pub fn push_u64s(buf: &mut Vec<u8>, v: &[u64])
    ensures
        final(buf)@ == old(buf)@ + u64s_bytes(v@),
{
    let mut i: usize = 0;
    let ghost before = buf@;
    assert(v@.take(0) =~= Seq::<u64>::empty());
    assert(before + u64s_bytes(v@.take(0)) =~= before);
    while i < v.len()
        invariant
            i <= v@.len(),
            buf@ == before + u64s_bytes(v@.take(i as int)),
        decreases v@.len() - i,
    {
        push_u64(buf, v[i]);
        i += 1;
        proof {
            let t = v@.take(i as int);
            assert(t.drop_last() =~= v@.take(i - 1));
            assert(buf@ =~= before + u64s_bytes(t));
        }
    }
    assert(v@.take(i as int) =~= v@);
}

/// `n` zero bytes.
pub open spec fn zeros(n: nat) -> Seq<u8> {
    Seq::new(n, |i: int| 0u8)
}

/// How many bytes bring `len` to a multiple of `unit`.
pub open spec fn padding(len: nat, unit: nat) -> nat {
    ((unit - len % unit) % (unit as int)) as nat
}

/// Appends zero bytes up to a multiple of `unit`.
pub fn pad_to(buf: &mut Vec<u8>, unit: usize)
    requires
        unit == 4 || unit == 8,
    ensures
        final(buf)@ == old(buf)@ + zeros(padding(old(buf)@.len(), unit as nat)),
        final(buf)@.len() % (unit as nat) == 0,
{
    let ghost before = buf@;
    let rest: usize = if unit == 4 {
        buf.len() % 4
    } else {
        buf.len() % 8
    };
    let n: usize = if rest == 0 {
        0
    } else {
        unit - rest
    };
    assert(n == padding(before.len(), unit as nat) && (before.len() + n) % (unit as int) == 0) by {
        if unit == 4 {
            assert(n == padding(before.len(), 4) && (before.len() + n) % 4 == 0);
        } else {
            assert(n == padding(before.len(), 8) && (before.len() + n) % 8 == 0);
        }
    }
    assert(before + zeros(0) =~= before);
    let mut k: usize = 0;
    while k < n
        invariant
            k <= n,
            buf@ == before + zeros(k as nat),
        decreases n - k,
    {
        buf.push(0);
        assert(buf@ =~= before + zeros((k + 1) as nat));
        k += 1;
    }
}

} // verus!
