//! Snapshots: the binary form of a store.
//!
//! Layout, all numbers little-endian: signature, version, number of keys, offset
//! of the arrays, offset of the dictionary, the lengths of the fifteen index
//! arrays, the arrays, the dictionary. Arrays and dictionary begin at a multiple
//! of eight.

use crate::bytes::{
    le32, le64, pad_to, padding, push_u32, push_u32s, push_u64, read_u32, read_u64, u32s_bytes, zeros,
};
use crate::hypertrie::csr::{raw_flat, raw_ok, triple_set, FlatCsr, IdTriple, U32Arena};
use crate::hypertrie::dictionary::{
    dict_at, dict_fault, dict_image, key_id, key_order, with_key, DictError, Dictionary,
};
use crate::hypertrie::permutations::{answer, as_osp, as_pos, Permutations, Term};
use crate::hypertrie::query::TripleStore;
use std::sync::Arc;
use vstd::bytes::{spec_u32_to_le_bytes, spec_u64_to_le_bytes};
use vstd::prelude::*;

verus! {

/// Version of the layout.
pub const SNAP_VERSION: u32 = 5;

/// Where the array lengths begin.
pub const LENS_AT: usize = 32;

/// Where the arrays of a written snapshot begin.
pub const ARRAYS_AT: usize = 96;

/// The signature at the start of every snapshot.
pub open spec fn magic() -> Seq<u8> {
    seq![84u8, 84u8, 82u8, 83u8, 78u8, 65u8, 80u8, 49u8]
}

/// What is wrong with a snapshot.
#[derive(Debug, Clone, Copy, PartialEq, Eq, Structural)]
pub enum SnapshotError {
    /// The header is incomplete.
    TooShort,
    /// The bytes do not begin with the signature.
    BadSignature,
    /// The layout has another version.
    BadVersion(u32),
    /// The index arrays do not fit into the bytes.
    ArraysOutOfBounds,
    /// The dictionary cannot be read.
    Dictionary(DictError),
    /// The index arrays do not fit together.
    Inconsistent,
}

/// Length of array `i`.
pub open spec fn array_len(b: Seq<u8>, i: int) -> nat {
    le32(b, 32 + 4 * i) as nat
}

/// How many numbers the first `i` arrays hold.
pub open spec fn words_before(b: Seq<u8>, i: int) -> nat
    decreases i,
{
    if i <= 0 {
        0
    } else {
        words_before(b, i - 1) + array_len(b, i - 1)
    }
}

/// Array `i` of a snapshot.
pub open spec fn array_at(b: Seq<u8>, i: int) -> Seq<u32> {
    Seq::new(
        array_len(b, i),
        |k: int| le32(b, le64(b, 16) + 4 * (words_before(b, i) + k)),
    )
}

/// The five arrays of order `j`.
pub open spec fn order_at(b: Seq<u8>, j: int) -> Seq<Seq<u32>> {
    Seq::new(5, |i: int| array_at(b, 5 * j + i))
}

/// The arrays lie inside the bytes.
pub open spec fn arrays_fit(b: Seq<u8>) -> bool {
    le64(b, 16) + 4 * words_before(b, 15) <= b.len()
}

/// The three orders are sound and hold the same triples.
pub open spec fn orders_agree(b: Seq<u8>) -> bool {
    let set = triple_set(raw_flat(order_at(b, 0)));
    &&& raw_ok(order_at(b, 0))
    &&& raw_ok(order_at(b, 1))
    &&& raw_ok(order_at(b, 2))
    &&& triple_set(raw_flat(order_at(b, 1))) == as_pos(set)
    &&& triple_set(raw_flat(order_at(b, 2))) == as_osp(set)
}

/// Whether some list of keys can be read at the offset.
pub open spec fn has_dict(b: Seq<u8>, off: nat) -> bool {
    exists|keys: Seq<Seq<char>>| dict_at(b, off, keys)
}

/// The first fault of a snapshot; nothing if it can be loaded.
pub open spec fn snapshot_fault(b: Seq<u8>) -> Option<SnapshotError> {
    if b.len() < 32 {
        Some(SnapshotError::TooShort)
    } else if b.take(8) != magic() {
        Some(SnapshotError::BadSignature)
    } else if le32(b, 8) != SNAP_VERSION {
        Some(SnapshotError::BadVersion(le32(b, 8)))
    } else if b.len() < 92 {
        Some(SnapshotError::TooShort)
    } else if !arrays_fit(b) {
        Some(SnapshotError::ArraysOutOfBounds)
    } else if !has_dict(b, le64(b, 24) as nat) {
        Some(SnapshotError::Dictionary(dict_fault(b, le64(b, 24) as nat)))
    } else if !orders_agree(b) {
        Some(SnapshotError::Inconsistent)
    } else {
        None
    }
}

/// The bytes are a snapshot of the given keys and triples.
pub open spec fn snapshot_of(b: Seq<u8>, keys: Seq<Seq<char>>, set: Set<IdTriple>) -> bool {
    &&& snapshot_fault(b) is None
    &&& dict_at(b, le64(b, 24) as nat, keys)
    &&& set == triple_set(raw_flat(order_at(b, 0)))
}

/// A snapshot determines what was saved: loading gives back the same dictionary
/// and the same triples.
pub proof fn law_snapshot_determines_store(
    b: Seq<u8>,
    k1: Seq<Seq<char>>,
    s1: Set<IdTriple>,
    k2: Seq<Seq<char>>,
    s2: Set<IdTriple>,
)
    requires
        snapshot_of(b, k1, s1),
        snapshot_of(b, k2, s2),
    ensures
        k1 == k2,
        s1 == s2,
{
    crate::hypertrie::dictionary::lemma_dict_at_unique(b, le64(b, 24) as nat, k1, k2);
}

/// A saved snapshot can be loaded, and the loaded store answers as the saved one did:
/// it has as many triples and terms, gives every query the same answer, knows the
/// same terms by the same identifiers, and a new term gets the next one.
pub proof fn law_loaded_store_answers_alike(
    b: Seq<u8>,
    k1: Seq<Seq<char>>,
    s1: Set<IdTriple>,
    k2: Seq<Seq<char>>,
    s2: Set<IdTriple>,
)
    requires
        snapshot_of(b, k1, s1),
        snapshot_of(b, k2, s2),
        k1.no_duplicates(),
    ensures
        snapshot_fault(b) is None,
        s2.len() == s1.len(),
        k2.len() == k1.len(),
        forall|s: Term, p: Term, o: Term| #[trigger] answer(s2, s, p, o) == answer(s1, s, p, o),
        forall|key: Seq<char>| #[trigger] key_id(k2, key) == key_id(k1, key),
        forall|key: Seq<char>|
            k1.contains(key) ==> #[trigger] with_key(k2, key) == k2 && k2.index_of(key) < k1.len(),
        forall|key: Seq<char>|
            !k1.contains(key) ==> #[trigger] with_key(k2, key) == k2.push(key) && with_key(
                k2,
                key,
            ).index_of(key) == k1.len(),
{
    law_snapshot_determines_store(b, k1, s1, k2, s2);
    assert forall|key: Seq<char>| !k1.contains(key) implies #[trigger] with_key(k2, key) == k2.push(key)
        && with_key(k2, key).index_of(key) == k1.len() by {
        crate::hypertrie::dictionary::lemma_with_key(k2, key);
    }
}

/// Whether the bytes begin with the signature.
fn has_magic(b: &[u8]) -> (r: bool)
    requires
        b@.len() >= 8,
    ensures
        r == (b@.take(8) == magic()),
{
    let r: bool = b[0] == 84 && b[1] == 84 && b[2] == 82 && b[3] == 83 && b[4] == 78 && b[5] == 65
        && b[6] == 80 && b[7] == 49;
    proof {
        let t = b@.take(8);
        if r {
            assert(t =~= magic());
        } else if t == magic() {
            assert(t[0] == 84 && t[1] == 84 && t[2] == 82 && t[3] == 83 && t[4] == 78 && t[5] == 65
                && t[6] == 80 && t[7] == 49);
        }
    }
    r
}

proof fn lemma_words_monotone(b: Seq<u8>, i: int, j: int)
    requires
        0 <= i <= j,
    ensures
        words_before(b, i) <= words_before(b, j),
        words_before(b, i + 1) == words_before(b, i) + array_len(b, i),
        words_before(b, j) <= j * u32::MAX,
    decreases j,
{
    if j > 0 {
        lemma_words_monotone(b, if i < j { i } else { j - 1 }, j - 1);
        assert(j * u32::MAX == (j - 1) * u32::MAX + u32::MAX) by (nonlinear_arith);
    }
}

/// Array `i` as a window into the shared words.
fn window(bytes: &[u8], words: &Arc<Vec<u32>>, i: usize, offset: usize) -> (r: U32Arena)
    requires
        i < 15,
        bytes@.len() >= 92,
        offset == words_before(bytes@, i as int),
        words@.len() == words_before(bytes@, 15),
        forall|k: int|
            0 <= k < words@.len() ==> #[trigger] words@[k] == le32(
                bytes@,
                le64(bytes@, 16) + 4 * k,
            ),
    ensures
        r.wf(),
        r@ == array_at(bytes@, i as int),
{
    let len: usize = read_u32(bytes, LENS_AT + 4 * i) as usize;
    proof {
        lemma_words_monotone(bytes@, i as int, i as int);
        lemma_words_monotone(bytes@, i + 1, 15);
    }
    let r: U32Arena = U32Arena::Mapped { map: words.clone(), offset, len };
    proof {
        let a = array_at(bytes@, i as int);
        assert forall|k: int| 0 <= k < len implies r@[k] == a[k] by {
            assert(r@[k] == words@[offset + k]);
        }
        assert(r@ =~= a);
    }
    r
}

/// The five arrays of one order; also gives where the next order begins.
fn order_windows(bytes: &[u8], words: &Arc<Vec<u32>>, j: usize, offset: usize) -> (r: (FlatCsr, usize))
    requires
        j < 3,
        bytes@.len() >= 92,
        offset == words_before(bytes@, 5 * j as int),
        words@.len() == words_before(bytes@, 15),
        forall|k: int|
            0 <= k < words@.len() ==> #[trigger] words@[k] == le32(
                bytes@,
                le64(bytes@, 16) + 4 * k,
            ),
    ensures
        r.0.windows_ok(),
        r.0.raw() == order_at(bytes@, j as int),
        r.1 == words_before(bytes@, 5 * j + 5),
{
    let first: usize = 5 * j;
    proof {
        lemma_words_monotone(bytes@, first as int, 15);
        lemma_words_monotone(bytes@, first + 1, 15);
        lemma_words_monotone(bytes@, first + 2, 15);
        lemma_words_monotone(bytes@, first + 3, 15);
        lemma_words_monotone(bytes@, first + 4, 15);
        lemma_words_monotone(bytes@, first + 5, 15);
    }
    let total: usize = words.len();
    let o1: usize = offset + read_u32(bytes, LENS_AT + 4 * first) as usize;
    let o2: usize = o1 + read_u32(bytes, LENS_AT + 4 * (first + 1)) as usize;
    let o3: usize = o2 + read_u32(bytes, LENS_AT + 4 * (first + 2)) as usize;
    let o4: usize = o3 + read_u32(bytes, LENS_AT + 4 * (first + 3)) as usize;
    let o5: usize = o4 + read_u32(bytes, LENS_AT + 4 * (first + 4)) as usize;
    let keys: U32Arena = window(bytes, words, first, offset);
    let key_off: U32Arena = window(bytes, words, first + 1, o1);
    let l1: U32Arena = window(bytes, words, first + 2, o2);
    let l1_off: U32Arena = window(bytes, words, first + 3, o3);
    let vals: U32Arena = window(bytes, words, first + 4, o4);
    let csr: FlatCsr = FlatCsr::from_arenas(keys, key_off, l1, l1_off, vals);
    proof {
        assert(csr.raw() =~= order_at(bytes@, j as int));
    }
    (csr, o5)
}

/// Reads the array lengths; says how many numbers the arrays hold in all.
fn total_words(bytes: &[u8]) -> (n: u64)
    requires
        bytes@.len() >= 92,
    ensures
        n == words_before(bytes@, 15),
        n <= 15 * u32::MAX,
{
    let mut n: u64 = 0;
    let mut i: usize = 0;
    while i < 15
        invariant
            i <= 15,
            bytes@.len() >= 92,
            n == words_before(bytes@, i as int),
            n <= i * u32::MAX,
        decreases 15 - i,
    {
        n = n + read_u32(bytes, LENS_AT + 4 * i) as u64;
        i += 1;
    }
    n
}

impl TripleStore {
    /// Loads a snapshot. The index arrays share one list of numbers, and the
    /// dictionary reads its keys from the bytes.
    pub fn load_snapshot(file: Vec<u8>) -> (r: Result<TripleStore, SnapshotError>)
        ensures
            match r {
                Ok(store) => store.wf() && store.index.folded() && snapshot_of(
                    file@,
                    store.dict.keys(),
                    store.triples(),
                ),
                Err(e) => snapshot_fault(file@) == Some(e),
            },
    {
        let ghost b = file@;
        let map: Arc<Vec<u8>> = Arc::new(file);
        let bytes: &[u8] = (&*map).as_slice();
        let size: usize = bytes.len();
        if size < 32 {
            return Err(SnapshotError::TooShort);
        }
        if !has_magic(bytes) {
            return Err(SnapshotError::BadSignature);
        }
        let version: u32 = read_u32(bytes, 8);
        if version != SNAP_VERSION {
            return Err(SnapshotError::BadVersion(version));
        }
        if size < 92 {
            return Err(SnapshotError::TooShort);
        }
        let arrays_off: u64 = read_u64(bytes, 16);
        let n_words: u64 = total_words(bytes);
        let end: u128 = arrays_off as u128 + 4 * n_words as u128;
        if end > size as u128 {
            return Err(SnapshotError::ArraysOutOfBounds);
        }
        let dict_off: u64 = read_u64(bytes, 24);
        if dict_off > size as u64 {
            proof {
                assert(!has_dict(b, dict_off as nat)) by {
                    if has_dict(b, dict_off as nat) {
                        let keys = choose|keys: Seq<Seq<char>>| dict_at(b, dict_off as nat, keys);
                        reveal(dict_at);
                    }
                }
            }
            return Err(SnapshotError::Dictionary(DictError::Truncated(dict_off as usize)));
        }
        let dict: Dictionary = match Dictionary::from_mapped(map.clone(), dict_off as usize) {
            Ok(d) => d,
            Err(e) => {
                return Err(SnapshotError::Dictionary(e));
            },
        };
        assert(has_dict(b, dict_off as nat));
        let start: usize = arrays_off as usize;
        let count: usize = n_words as usize;
        let mut words: Vec<u32> = Vec::new();
        let mut i: usize = 0;
        while i < count
            invariant
                i <= count,
                b == bytes@,
                size == b.len(),
                start == le64(b, 16),
                start + 4 * count <= size,
                words@.len() == i,
                forall|k: int|
                    0 <= k < i ==> #[trigger] words@[k] == le32(b, le64(b, 16) + 4 * k),
            decreases count - i,
        {
            words.push(read_u32(bytes, start + 4 * i));
            i += 1;
        }
        let words: Arc<Vec<u32>> = Arc::new(words);
        let (spo, o1) = order_windows(bytes, &words, 0, 0);
        let (pos, o2) = order_windows(bytes, &words, 1, o1);
        let (osp, _o3) = order_windows(bytes, &words, 2, o2);
        proof {
            spo.lemma_raw();
            pos.lemma_raw();
            osp.lemma_raw();
        }
        if !spo.is_consistent() || !pos.is_consistent() || !osp.is_consistent() {
            return Err(SnapshotError::Inconsistent);
        }
        proof {
            lemma_order_len(b, 0);
            lemma_order_len(b, 1);
            lemma_order_len(b, 2);
        }
        match Permutations::from_bases(spo, pos, osp) {
            Some(index) => Ok(TripleStore { dict, index }),
            None => Err(SnapshotError::Inconsistent),
        }
    }
}

/// The triples of an order are as many as its last array is long.
proof fn lemma_order_len(b: Seq<u8>, j: int)
    ensures
        raw_flat(order_at(b, j)).len() <= u32::MAX,
{
}

// --- Writing -----------------------------------------------------------------

/// The bytes of several arrays, one after the other.
pub open spec fn arrays_bytes(arrays: Seq<Seq<u32>>) -> Seq<u8>
    decreases arrays.len(),
{
    if arrays.len() == 0 {
        Seq::empty()
    } else {
        arrays_bytes(arrays.drop_last()) + u32s_bytes(arrays.last())
    }
}

/// How many numbers several arrays hold.
pub open spec fn arrays_words(arrays: Seq<Seq<u32>>) -> nat
    decreases arrays.len(),
{
    if arrays.len() == 0 {
        0
    } else {
        arrays_words(arrays.drop_last()) + arrays.last().len()
    }
}

/// The lengths of several arrays.
pub open spec fn array_lens(arrays: Seq<Seq<u32>>) -> Seq<u32> {
    Seq::new(arrays.len(), |i: int| arrays[i].len() as u32)
}

/// Where the dictionary of a written snapshot begins.
pub open spec fn dict_off_of(arrays: Seq<Seq<u32>>) -> nat {
    let end = 96 + 4 * arrays_words(arrays);
    end + padding(end, 8)
}

/// The bytes of a snapshot.
pub open spec fn snapshot_image(arrays: Seq<Seq<u32>>, keys: Seq<Seq<char>>, ids: Seq<u32>) -> Seq<u8> {
    snapshot_head(arrays, keys.len()) + arrays_bytes(arrays) + zeros(
        padding(96 + 4 * arrays_words(arrays), 8),
    ) + dict_image(dict_off_of(arrays), keys, ids)
}

/// The part of a snapshot before the arrays.
pub open spec fn snapshot_head(arrays: Seq<Seq<u32>>, n_keys: nat) -> Seq<u8> {
    magic() + spec_u32_to_le_bytes(SNAP_VERSION) + spec_u32_to_le_bytes(n_keys as u32)
        + spec_u64_to_le_bytes(96) + spec_u64_to_le_bytes(dict_off_of(arrays) as u64) + u32s_bytes(
        array_lens(arrays),
    ) + zeros(4)
}

proof fn lemma_head(arrays: Seq<Seq<u32>>, n_keys: nat, tail: Seq<u8>)
    requires
        arrays.len() == 15,
        dict_off_of(arrays) <= u64::MAX,
        forall|i: int| 0 <= i < 15 ==> (#[trigger] arrays[i]).len() <= u32::MAX,
    ensures
        ({
            let b = snapshot_head(arrays, n_keys) + tail;
            &&& snapshot_head(arrays, n_keys).len() == 96
            &&& b.take(8) == magic()
            &&& le32(b, 8) == SNAP_VERSION
            &&& le64(b, 16) == 96
            &&& le64(b, 24) == dict_off_of(arrays)
            &&& forall|i: int| 0 <= i < 15 ==> #[trigger] array_len(b, i) == arrays[i].len()
        }),
{
    let v = spec_u32_to_le_bytes(SNAP_VERSION);
    let n = spec_u32_to_le_bytes(n_keys as u32);
    let a = spec_u64_to_le_bytes(96);
    let d = spec_u64_to_le_bytes(dict_off_of(arrays) as u64);
    let lens = array_lens(arrays);
    let l = u32s_bytes(lens);
    let z = zeros(4);
    crate::bytes::lemma_u32s_bytes(lens);
    let b = snapshot_head(arrays, n_keys) + tail;
    crate::bytes::lemma_le32(magic(), SNAP_VERSION, n + a + d + l + z + tail);
    assert(b =~= magic() + v + (n + a + d + l + z + tail));
    crate::bytes::lemma_le32(magic() + v, n_keys as u32, a + d + l + z + tail);
    crate::bytes::lemma_le64(magic() + v + n, 96, d + l + z + tail);
    assert(b =~= magic() + v + n + a + (d + l + z + tail));
    crate::bytes::lemma_le64(magic() + v + n + a, dict_off_of(arrays) as u64, l + z + tail);
    assert(b =~= magic() + v + n + a + d + (l + z + tail));
    assert(b.take(8) =~= magic());
    assert forall|i: int| 0 <= i < 15 implies #[trigger] array_len(b, i) == arrays[i].len() by {
        assert(b.subrange(32 + 4 * i, 32 + 4 * i + 4) =~= l.subrange(4 * i, 4 * i + 4));
        assert(le32(l, 4 * i) == lens[i]);
    }
}

proof fn lemma_arrays_bytes(arrays: Seq<Seq<u32>>)
    ensures
        arrays_bytes(arrays).len() == 4 * arrays_words(arrays),
        forall|i: int, k: int|
            0 <= i < arrays.len() && 0 <= k < arrays[i].len() ==> #[trigger] le32(
                arrays_bytes(arrays),
                4 * (arrays_words(arrays.take(i)) + k),
            ) == #[trigger] arrays[i][k] && arrays_words(arrays.take(i)) + k < arrays_words(arrays),
    decreases arrays.len(),
{
    if arrays.len() > 0 {
        let rest = arrays.drop_last();
        let last = arrays.last();
        lemma_arrays_bytes(rest);
        crate::bytes::lemma_u32s_bytes(last);
        let b = arrays_bytes(arrays);
        let rb = arrays_bytes(rest);
        assert forall|i: int, k: int| 0 <= i < arrays.len() && 0 <= k < arrays[i].len() implies
            #[trigger] le32(b, 4 * (arrays_words(arrays.take(i)) + k)) == #[trigger] arrays[i][k]
            && arrays_words(arrays.take(i)) + k < arrays_words(arrays) by {
            if i < rest.len() {
                assert(rest.take(i) =~= arrays.take(i));
                assert(rest[i] == arrays[i]);
                let p = 4 * (arrays_words(rest.take(i)) + k);
                assert(le32(rb, p) == rest[i][k]);
                assert(b.subrange(p, p + 4) =~= rb.subrange(p, p + 4));
            } else {
                assert(arrays.take(i) =~= rest);
                let p = rb.len() + 4 * k;
                assert(b.subrange(p, p + 4) =~= u32s_bytes(last).subrange(4 * k, 4 * k + 4));
                assert(le32(u32s_bytes(last), 4 * k) == last[k]);
            }
        }
    }
}

/// The arrays of an image can be read back.
proof fn lemma_image_arrays(arrays: Seq<Seq<u32>>, n_keys: nat, tail: Seq<u8>)
    requires
        arrays.len() == 15,
        dict_off_of(arrays) <= u64::MAX,
        forall|i: int| 0 <= i < 15 ==> (#[trigger] arrays[i]).len() <= u32::MAX,
    ensures
        ({
            let b = snapshot_head(arrays, n_keys) + arrays_bytes(arrays) + tail;
            &&& forall|i: int| 0 <= i < 15 ==> #[trigger] array_at(b, i) == arrays[i]
            &&& words_before(b, 15) == arrays_words(arrays)
        }),
{
    let head = snapshot_head(arrays, n_keys);
    let ab = arrays_bytes(arrays);
    let b = head + ab + tail;
    assert(b =~= head + (ab + tail));
    lemma_head(arrays, n_keys, ab + tail);
    lemma_arrays_bytes(arrays);
    assert forall|i: int| 0 <= i <= 15 implies #[trigger] words_before(b, i) == arrays_words(
        arrays.take(i),
    ) by {
        lemma_words_of(b, arrays, i);
    }
    assert(arrays.take(15) =~= arrays);
    assert(words_before(b, 15) == arrays_words(arrays.take(15)));
    assert forall|i: int| 0 <= i < 15 implies #[trigger] array_at(b, i) == arrays[i] by {
        assert(array_len(b, i) == arrays[i].len());
        assert(words_before(b, i) == arrays_words(arrays.take(i)));
        assert forall|k: int| 0 <= k < arrays[i].len() implies array_at(b, i)[k] == arrays[i][k] by {
            let p = 4 * (arrays_words(arrays.take(i)) + k);
            assert(le32(ab, p) == arrays[i][k]);
            assert(b.subrange(96 + p, 96 + p + 4) =~= ab.subrange(p, p + 4));
        }
        assert(array_at(b, i) =~= arrays[i]);
    }
}

proof fn lemma_words_of(b: Seq<u8>, arrays: Seq<Seq<u32>>, i: int)
    requires
        arrays.len() == 15,
        0 <= i <= 15,
        forall|j: int| 0 <= j < 15 ==> #[trigger] array_len(b, j) == arrays[j].len(),
    ensures
        words_before(b, i) == arrays_words(arrays.take(i)),
    decreases i,
{
    if i > 0 {
        lemma_words_of(b, arrays, i - 1);
        assert(arrays.take(i).drop_last() =~= arrays.take(i - 1));
        assert(array_len(b, i - 1) == arrays[i - 1].len());
    }
}

/// Appends one array and notes its length.
fn push_array(body: &mut Vec<u8>, lens: &mut Vec<u32>, a: &[u32], Ghost(arrays): Ghost<Seq<Seq<u32>>>)
    requires
        a@.len() <= u32::MAX,
        old(body)@ == arrays_bytes(arrays),
        old(lens)@ == array_lens(arrays),
    ensures
        final(body)@ == arrays_bytes(arrays.push(a@)),
        final(lens)@ == array_lens(arrays.push(a@)),
{
    push_u32s(body, a);
    lens.push(a.len() as u32);
    proof {
        assert(arrays.push(a@).drop_last() =~= arrays);
        assert(lens@ =~= array_lens(arrays.push(a@)));
    }
}

/// Appends the five arrays of one order.
fn push_order(body: &mut Vec<u8>, lens: &mut Vec<u32>, csr: &FlatCsr, Ghost(arrays): Ghost<Seq<Seq<u32>>>)
    requires
        csr.wf(),
        csr.flat().len() < u32::MAX,
        old(body)@ == arrays_bytes(arrays),
        old(lens)@ == array_lens(arrays),
    ensures
        final(body)@ == arrays_bytes(arrays + csr.raw()),
        final(lens)@ == array_lens(arrays + csr.raw()),
        csr.raw().len() == 5,
        forall|i: int| 0 <= i < 5 ==> (#[trigger] csr.raw()[i]).len() <= u32::MAX,
{
    let r: [&[u32]; 5] = csr.arrays();
    let ghost raw = csr.raw();
    proof {
        csr.lemma_raw();
        crate::hypertrie::csr::lemma_raw_len(raw);
        assert(raw[0] == r[0]@ && raw[1] == r[1]@ && raw[2] == r[2]@ && raw[3] == r[3]@ && raw[4]
            == r[4]@);
    }
    let ghost a1 = arrays.push(raw[0]);
    let ghost a2 = a1.push(raw[1]);
    let ghost a3 = a2.push(raw[2]);
    let ghost a4 = a3.push(raw[3]);
    push_array(body, lens, r[0], Ghost(arrays));
    push_array(body, lens, r[1], Ghost(a1));
    push_array(body, lens, r[2], Ghost(a2));
    push_array(body, lens, r[3], Ghost(a3));
    push_array(body, lens, r[4], Ghost(a4));
    proof {
        assert(a4.push(raw[4]) =~= arrays + raw);
    }
}

/// The part of a snapshot before the arrays.
fn write_head(n_keys: u32, dict_off: u64, lens: &[u32], Ghost(arrays): Ghost<Seq<Seq<u32>>>) -> (out: Vec<u8>)
    requires
        arrays.len() == 15,
        lens@ == array_lens(arrays),
        dict_off == dict_off_of(arrays),
    ensures
        out@ == snapshot_head(arrays, n_keys as nat),
        out@.len() == 96,
{
    let mut out: Vec<u8> = Vec::new();
    out.push(84);
    out.push(84);
    out.push(82);
    out.push(83);
    out.push(78);
    out.push(65);
    out.push(80);
    out.push(49);
    assert(out@ =~= magic());
    push_u32(&mut out, SNAP_VERSION);
    push_u32(&mut out, n_keys);
    push_u64(&mut out, 96);
    push_u64(&mut out, dict_off);
    push_u32s(&mut out, lens);
    proof {
        crate::bytes::lemma_u32s_bytes(lens@);
        assert(out@.len() == 92);
    }
    pad_to(&mut out, 8);
    out
}

/// An image of sound orders is a snapshot of what they hold.
proof fn lemma_image_is_snapshot(
    spo: Seq<Seq<u32>>,
    pos: Seq<Seq<u32>>,
    osp: Seq<Seq<u32>>,
    keys: Seq<Seq<char>>,
    b: Seq<u8>,
    rest: Seq<u8>,
)
    requires
        spo.len() == 5,
        pos.len() == 5,
        osp.len() == 5,
        raw_ok(spo),
        raw_ok(pos),
        raw_ok(osp),
        triple_set(raw_flat(pos)) == as_pos(triple_set(raw_flat(spo))),
        triple_set(raw_flat(osp)) == as_osp(triple_set(raw_flat(spo))),
        forall|i: int| 0 <= i < 5 ==> (#[trigger] spo[i]).len() <= u32::MAX,
        forall|i: int| 0 <= i < 5 ==> (#[trigger] pos[i]).len() <= u32::MAX,
        forall|i: int| 0 <= i < 5 ==> (#[trigger] osp[i]).len() <= u32::MAX,
        b == snapshot_head(spo + pos + osp, keys.len()) + arrays_bytes(spo + pos + osp) + rest,
        dict_off_of(spo + pos + osp) <= u64::MAX,
        dict_at(b, dict_off_of(spo + pos + osp), keys),
    ensures
        snapshot_of(b, keys, triple_set(raw_flat(spo))),
{
    let arrays = spo + pos + osp;
    assert forall|i: int| 0 <= i < 15 implies (#[trigger] arrays[i]).len() <= u32::MAX by {
        if i < 5 {
            assert(arrays[i] == spo[i]);
        } else if i < 10 {
            assert(arrays[i] == pos[i - 5]);
        } else {
            assert(arrays[i] == osp[i - 10]);
        }
    }
    assert(b =~= snapshot_head(arrays, keys.len()) + (arrays_bytes(arrays) + rest));
    lemma_head(arrays, keys.len(), arrays_bytes(arrays) + rest);
    lemma_image_arrays(arrays, keys.len(), rest);
    lemma_arrays_bytes(arrays);
    assert(has_dict(b, le64(b, 24) as nat));
    assert(order_at(b, 0) =~= spo) by {
        assert forall|i: int| 0 <= i < 5 implies #[trigger] order_at(b, 0)[i] == spo[i] by {
            assert(array_at(b, i) == arrays[i]);
        }
    }
    assert(order_at(b, 1) =~= pos) by {
        assert forall|i: int| 0 <= i < 5 implies #[trigger] order_at(b, 1)[i] == pos[i] by {
            assert(array_at(b, 5 + i) == arrays[5 + i]);
        }
    }
    assert(order_at(b, 2) =~= osp) by {
        assert forall|i: int| 0 <= i < 5 implies #[trigger] order_at(b, 2)[i] == osp[i] by {
            assert(array_at(b, 10 + i) == arrays[10 + i]);
        }
    }
    assert(orders_agree(b));
}

/// The bytes a store may be saved as: the image of its dictionary, in the order
/// of the keys, and of three sound orders of its triples.
pub open spec fn saved_as(b: Seq<u8>, keys: Seq<Seq<char>>, set: Set<IdTriple>) -> bool {
    exists|arrays: Seq<Seq<u32>>, ids: Seq<u32>|
        key_order(keys, ids) && b == #[trigger] snapshot_image(arrays, keys, ids) && arrays.len() == 15
            && triple_set(raw_flat(arrays.take(5))) == set
}

impl TripleStore {
    /// Writes a snapshot: the dictionary and the three flat orders.
    pub fn save_snapshot(&mut self) -> (out: Vec<u8>)
        requires
            old(self).wf(),
            old(self).triples().len() < u32::MAX,
        ensures
            final(self).wf(),
            final(self).index.folded(),
            final(self).dict == old(self).dict,
            final(self).triples() == old(self).triples(),
            snapshot_of(out@, final(self).dict.keys(), final(self).triples()),
            saved_as(out@, final(self).dict.keys(), final(self).triples()),
    {
        self.compact_all();
        let ghost set = self.triples();
        let ghost keys = self.dict.keys();
        let (spo, pos, osp) = self.index.bases();
        proof {
            spo.lemma_flat();
            pos.lemma_flat();
            osp.lemma_flat();
            spo.lemma_raw();
            pos.lemma_raw();
            osp.lemma_raw();
            crate::hypertrie::permutations::lemma_turned_len(set);
        }
        let ghost r0 = spo.raw();
        let ghost r1 = pos.raw();
        let ghost r2 = osp.raw();
        let mut body: Vec<u8> = Vec::new();
        let mut lens: Vec<u32> = Vec::new();
        let ghost none: Seq<Seq<u32>> = Seq::empty();
        proof {
            assert(lens@ =~= array_lens(none));
        }
        push_order(&mut body, &mut lens, spo, Ghost(none));
        assert(none + r0 =~= r0);
        push_order(&mut body, &mut lens, pos, Ghost(r0));
        push_order(&mut body, &mut lens, osp, Ghost(r0 + r1));
        let ghost arrays = r0 + r1 + r2;
        proof {
            lemma_arrays_bytes(arrays);
            assert forall|i: int| 0 <= i < 15 implies (#[trigger] arrays[i]).len() <= u32::MAX by {
                if i < 5 {
                    assert(arrays[i] == r0[i]);
                } else if i < 10 {
                    assert(arrays[i] == r1[i - 5]);
                } else {
                    assert(arrays[i] == r2[i - 10]);
                }
            }
            lemma_arrays_words_bound(arrays);
        }
        let size: usize = body.len();
        let end: u64 = 96 + size as u64;
        let dict_off: u64 = if end % 8 == 0 {
            end
        } else {
            end + (8 - end % 8)
        };
        let mut out: Vec<u8> = write_head(self.dict.len() as u32, dict_off, lens.as_slice(), Ghost(arrays));
        out.append(&mut body);
        pad_to(&mut out, 8);
        let ghost front = out@;
        self.dict.serialize_into(&mut out);
        proof {
            let b = out@;
            let ids = choose|ids: Seq<u32>| #[trigger]
                key_order(keys, ids) && b == front + dict_image(front.len(), keys, ids);
            let rest = zeros(padding(96 + 4 * arrays_words(arrays), 8)) + dict_image(
                front.len(),
                keys,
                ids,
            );
            assert(b =~= snapshot_image(arrays, keys, ids));
            assert(b =~= snapshot_head(arrays, keys.len()) + arrays_bytes(arrays) + rest);
            assert(arrays.take(5) =~= r0);
            lemma_image_is_snapshot(r0, r1, r2, keys, b, rest);
        }
        out
    }
}

proof fn lemma_arrays_words_bound(arrays: Seq<Seq<u32>>)
    requires
        arrays.len() <= 15,
        forall|i: int| 0 <= i < arrays.len() ==> (#[trigger] arrays[i]).len() <= u32::MAX,
    ensures
        arrays_words(arrays) <= arrays.len() * u32::MAX,
    decreases arrays.len(),
{
    if arrays.len() > 0 {
        let rest = arrays.drop_last();
        assert forall|i: int| 0 <= i < rest.len() implies (#[trigger] rest[i]).len() <= u32::MAX by {
            assert(rest[i] == arrays[i]);
        }
        lemma_arrays_words_bound(rest);
    }
}

} // verus!
