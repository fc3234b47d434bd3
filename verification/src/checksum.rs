//! CRC-32 over byte sequences.
//!
//! The checksum guards every record of the log: a record is only served when
//! the checksum stored in its header equals the CRC-32 of its key and value
//! bytes. The definition below is the reflected CRC-32 (polynomial
//! `0xEDB88320`, initial state and final xor `0xFFFFFFFF`), written as a spec
//! fold so that the executable loop is proved against it. The lemmas at the
//! end show that changing exactly one byte of the input always changes the
//! checksum, which is what makes single-byte corruption detectable.

use vstd::prelude::*;

verus! {

/// Bit-reversed polynomial of the reflected CRC-32.
pub const CRC32_POLY: u32 = 0xEDB88320;

/// One shift-and-conditionally-xor round of the bitwise computation.
pub open spec fn crc_round(c: u32) -> u32 {
    if (c & 1) == 1 {
        (c >> 1) ^ CRC32_POLY
    } else {
        c >> 1
    }
}

/// Eight rounds: how one input byte, already xor-ed in, is absorbed.
pub open spec fn crc_rounds8(c: u32) -> u32 {
    crc_round(crc_round(crc_round(crc_round(crc_round(crc_round(crc_round(crc_round(c))))))))
}

/// Folding one byte into the running state.
pub open spec fn crc_step(c: u32, b: u8) -> u32 {
    crc_rounds8(c ^ (b as u32))
}

/// Folding a whole byte sequence into the running state.
pub open spec fn crc_fold(c: u32, data: Seq<u8>) -> u32
    decreases data.len(),
{
    if data.len() == 0 {
        c
    } else {
        crc_fold(crc_step(c, data[0]), data.drop_first())
    }
}

/// The CRC-32 of a byte sequence.
pub open spec fn crc32_of(data: Seq<u8>) -> u32 {
    crc_fold(0xFFFFFFFFu32, data) ^ 0xFFFFFFFFu32
}

/// A round can be undone, so two distinct states stay distinct.
proof fn lemma_round_inj(c1: u32, c2: u32)
    requires
        crc_round(c1) == crc_round(c2),
    ensures
        c1 == c2,
{
    assert(forall|a: u32, b: u32|
        (if (a & 1) == 1 {
            (a >> 1) ^ 0xEDB88320u32
        } else {
            a >> 1
        }) == (if (b & 1) == 1 {
            (b >> 1) ^ 0xEDB88320u32
        } else {
            b >> 1
        }) ==> a == b) by (bit_vector);
}

/// Eight rounds keep distinct states distinct.
proof fn lemma_rounds8_inj(c1: u32, c2: u32)
    requires
        crc_rounds8(c1) == crc_rounds8(c2),
    ensures
        c1 == c2,
{
    let a1 = crc_round(c1);
    let a2 = crc_round(a1);
    let a3 = crc_round(a2);
    let a4 = crc_round(a3);
    let a5 = crc_round(a4);
    let a6 = crc_round(a5);
    let a7 = crc_round(a6);
    let b1 = crc_round(c2);
    let b2 = crc_round(b1);
    let b3 = crc_round(b2);
    let b4 = crc_round(b3);
    let b5 = crc_round(b4);
    let b6 = crc_round(b5);
    let b7 = crc_round(b6);
    lemma_round_inj(a7, b7);
    lemma_round_inj(a6, b6);
    lemma_round_inj(a5, b5);
    lemma_round_inj(a4, b4);
    lemma_round_inj(a3, b3);
    lemma_round_inj(a2, b2);
    lemma_round_inj(a1, b1);
    lemma_round_inj(c1, c2);
}

/// Absorbing the same byte keeps distinct states distinct.
proof fn lemma_step_inj(c1: u32, c2: u32, b: u8)
    requires
        crc_step(c1, b) == crc_step(c2, b),
    ensures
        c1 == c2,
{
    lemma_rounds8_inj(c1 ^ (b as u32), c2 ^ (b as u32));
    assert(forall|x: u32, y: u32, z: u32| x ^ z == y ^ z ==> x == y) by (bit_vector);
}

/// Absorbing distinct bytes from one state yields distinct states.
proof fn lemma_step_diff_byte(c: u32, b1: u8, b2: u8)
    requires
        b1 != b2,
    ensures
        crc_step(c, b1) != crc_step(c, b2),
{
    assert(c ^ (b1 as u32) != c ^ (b2 as u32)) by (bit_vector)
        requires
            b1 != b2,
    ;
    if crc_step(c, b1) == crc_step(c, b2) {
        lemma_rounds8_inj(c ^ (b1 as u32), c ^ (b2 as u32));
    }
}

/// Folding the same data keeps distinct states distinct.
proof fn lemma_fold_inj(c1: u32, c2: u32, data: Seq<u8>)
    requires
        crc_fold(c1, data) == crc_fold(c2, data),
    ensures
        c1 == c2,
    decreases data.len(),
{
    if data.len() != 0 {
        lemma_fold_inj(crc_step(c1, data[0]), crc_step(c2, data[0]), data.drop_first());
        lemma_step_inj(c1, c2, data[0]);
    }
}

/// Folding two sequences of one length that differ in exactly one byte
/// yields distinct states.
proof fn lemma_fold_single_diff(c: u32, d1: Seq<u8>, d2: Seq<u8>, i: int)
    requires
        d1.len() == d2.len(),
        0 <= i < d1.len(),
        d1[i] != d2[i],
        forall|j: int| 0 <= j < d1.len() && j != i ==> d1[j] == d2[j],
    ensures
        crc_fold(c, d1) != crc_fold(c, d2),
    decreases d1.len(),
{
    if i == 0 {
        lemma_step_diff_byte(c, d1[0], d2[0]);
        assert(d1.drop_first() =~= d2.drop_first());
        if crc_fold(c, d1) == crc_fold(c, d2) {
            lemma_fold_inj(crc_step(c, d1[0]), crc_step(c, d2[0]), d1.drop_first());
        }
    } else {
        assert(d1[0] == d2[0]);
        assert(forall|j: int|
            0 <= j < d1.drop_first().len() && j != i - 1 ==> d1.drop_first()[j]
                == d2.drop_first()[j]);
        lemma_fold_single_diff(crc_step(c, d1[0]), d1.drop_first(), d2.drop_first(), i - 1);
    }
}

/// Two byte sequences of one length that differ in exactly one byte have
/// distinct CRC-32 checksums, so a single corrupted byte never passes the
/// check.
pub proof fn lemma_crc32_single_byte_diff(d1: Seq<u8>, d2: Seq<u8>, i: int)
    requires
        d1.len() == d2.len(),
        0 <= i < d1.len(),
        d1[i] != d2[i],
        forall|j: int| 0 <= j < d1.len() && j != i ==> d1[j] == d2[j],
    ensures
        crc32_of(d1) != crc32_of(d2),
{
    lemma_fold_single_diff(0xFFFFFFFFu32, d1, d2, i);
    assert(forall|x: u32, y: u32| x != y ==> x ^ 0xFFFFFFFFu32 != y ^ 0xFFFFFFFFu32)
        by (bit_vector);
}

/// Folding a sequence extended by one byte is one extra step.
proof fn lemma_fold_snoc(c: u32, s: Seq<u8>, b: u8)
    ensures
        crc_fold(c, s.push(b)) == crc_step(crc_fold(c, s), b),
    decreases s.len(),
{
    if s.len() == 0 {
        assert(s.push(b)[0] == b);
        assert(s.push(b).drop_first() =~= Seq::<u8>::empty());
        assert(crc_fold(c, s.push(b)) == crc_fold(crc_step(c, b), s.push(b).drop_first()));
    } else {
        assert(s.push(b)[0] == s[0]);
        assert(s.push(b).drop_first() =~= s.drop_first().push(b));
        lemma_fold_snoc(crc_step(c, s[0]), s.drop_first(), b);
        assert(crc_fold(c, s.push(b)) == crc_fold(crc_step(c, s[0]), s.drop_first().push(b)));
        assert(crc_fold(c, s) == crc_fold(crc_step(c, s[0]), s.drop_first()));
    }
}

/// Folding a concatenation folds the two parts in turn.
proof fn lemma_fold_append(c: u32, a: Seq<u8>, b: Seq<u8>)
    ensures
        crc_fold(c, a + b) == crc_fold(crc_fold(c, a), b),
    decreases a.len(),
{
    if a.len() == 0 {
        assert(a + b =~= b);
    } else {
        assert((a + b)[0] == a[0]);
        assert((a + b).drop_first() =~= a.drop_first() + b);
        lemma_fold_append(crc_step(c, a[0]), a.drop_first(), b);
    }
}

/// One executable round, proved against `crc_round`.
fn round(c: u32) -> (r: u32)
    ensures
        r == crc_round(c),
{
    if (c & 1) == 1 {
        (c >> 1) ^ CRC32_POLY
    } else {
        c >> 1
    }
}

/// Absorbing one byte, proved against `crc_step`.
fn step(c: u32, b: u8) -> (r: u32)
    ensures
        r == crc_step(c, b),
{
    let mut x: u32 = c ^ (b as u32);
    x = round(x);
    x = round(x);
    x = round(x);
    x = round(x);
    x = round(x);
    x = round(x);
    x = round(x);
    x = round(x);
    x
}

/// Folding a slice into a running state, proved against `crc_fold`.
fn extend(c0: u32, data: &[u8]) -> (r: u32)
    ensures
        r == crc_fold(c0, data@),
{
    let mut c: u32 = c0;
    let mut i: usize = 0;
    while i < data.len()
        invariant
            0 <= i <= data@.len(),
            c == crc_fold(c0, data@.subrange(0, i as int)),
        decreases data@.len() - i,
    {
        proof {
            lemma_fold_snoc(c0, data@.subrange(0, i as int), data@[i as int]);
            assert(data@.subrange(0, i + 1) =~= data@.subrange(0, i as int).push(
                data@[i as int]));
        }
        c = step(c, data[i]);
        i = i + 1;
    }
    proof {
        assert(data@.subrange(0, data@.len() as int) =~= data@);
    }
    c
}

/// The CRC-32 of a slice.
pub fn crc32(data: &[u8]) -> (r: u32)
    ensures
        r == crc32_of(data@),
{
    extend(0xFFFFFFFF, data) ^ 0xFFFFFFFF
}

/// The CRC-32 of the concatenation of two slices, without concatenating.
pub fn crc32_pair(a: &[u8], b: &[u8]) -> (r: u32)
    ensures
        r == crc32_of(a@ + b@),
{
    proof {
        lemma_fold_append(0xFFFFFFFFu32, a@, b@);
    }
    extend(extend(0xFFFFFFFF, a), b) ^ 0xFFFFFFFF
}

} // verus!
