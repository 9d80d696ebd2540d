//! Little-endian machine words stored in the arena's bytes. Block headers
//! and back-pointers are made of these words.

use vstd::bytes::lemma_auto_spec_u64_to_from_le_bytes;
use vstd::bytes::spec_u64_from_le_bytes;
use vstd::bytes::spec_u64_to_le_bytes;
use vstd::bytes::u64_from_le_bytes;
use vstd::bytes::u64_to_le_bytes;
use vstd::prelude::*;
use vstd::slice::slice_subrange;

verus! {

/// The machine word stored little-endian in the 8 bytes of `m` starting at
/// offset `i`, read as an integer.
pub open spec fn word_at(m: Seq<u8>, i: int) -> int
    recommends
        0 <= i,
        i + 8 <= m.len(),
{
    spec_u64_from_le_bytes(m.subrange(i, i + 8)) as int
}

/// A word is unchanged when its 8 bytes are unchanged.
pub proof fn lemma_word_at_frame(m1: Seq<u8>, m2: Seq<u8>, i: int)
    requires
        0 <= i,
        i + 8 <= m1.len(),
        i + 8 <= m2.len(),
        forall|j: int| i <= j < i + 8 ==> m2[j] == m1[j],
    ensures
        word_at(m2, i) == word_at(m1, i),
{
    assert(m2.subrange(i, i + 8) =~= m1.subrange(i, i + 8));
}

pub fn load_word(m: &Vec<u8>, i: usize) -> (r: u64)
    requires
        i + 8 <= m@.len(),
    ensures
        r as int == word_at(m@, i as int),
{
    let total = m.len();
    assert(i + 8 <= total);
    let s = slice_subrange(m.as_slice(), i, i + 8);
    u64_from_le_bytes(s)
}

pub fn store_word(m: &mut Vec<u8>, i: usize, v: u64)
    requires
        i + 8 <= old(m)@.len(),
    ensures
        final(m)@.len() == old(m)@.len(),
        word_at(final(m)@, i as int) == v as int,
        forall|j: int|
            0 <= j < old(m)@.len() && !(i <= j < i + 8) ==> final(m)@[j] == old(m)@[j],
{
    let total = m.len();
    assert(i + 8 <= total);
    let bytes = u64_to_le_bytes(v);
    m.set(i, bytes[0]);
    m.set(i + 1, bytes[1]);
    m.set(i + 2, bytes[2]);
    m.set(i + 3, bytes[3]);
    m.set(i + 4, bytes[4]);
    m.set(i + 5, bytes[5]);
    m.set(i + 6, bytes[6]);
    m.set(i + 7, bytes[7]);
    proof {
        lemma_auto_spec_u64_to_from_le_bytes();
        assert(m@.subrange(i as int, i as int + 8) =~= spec_u64_to_le_bytes(v));
    }
}

} // verus!
