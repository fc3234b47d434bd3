//! The record codec: one log entry to and from bytes.
//!
//! A record is laid out as a 13-byte header followed by the raw key and value
//! bytes. The header holds, in order: the CRC-32 checksum of `key ++ value`
//! as a little-endian `u32`, one kind byte (`0` for a value record, `1` for a
//! tombstone left by a delete), the key length and the value length, each as
//! a little-endian `u32`. The layout carries no other framing, so a record is
//! readable only from its starting offset.
//!
//! Decoding at the very end of the log is a normal end-of-log signal; a
//! truncated header or payload, an unknown kind byte, and a checksum mismatch
//! are all corruption.

use vstd::bytes::*;
use vstd::prelude::*;
use vstd::slice::{slice_index_get, slice_subrange, slice_to_vec};

use crate::checksum::{crc32_of, crc32_pair};

verus! {

/// One decoded log entry.
#[derive(Debug, Clone, PartialEq, Eq)]
pub struct Record {
    /// The checksum stored in the header, equal to the CRC-32 of
    /// `key ++ value` for any record that decodes.
    pub checksum: u32,
    /// The key bytes.
    pub key: Vec<u8>,
    /// The value bytes.
    pub value: Vec<u8>,
    /// Whether this record is a tombstone left by a delete.
    pub tombstone: bool,
}

/// The outcome of decoding at an offset.
pub enum Decoded {
    /// The offset sits exactly at the end of the log: nothing left to read.
    EndOfLog,
    /// A whole record was read; the second field is the offset just past it.
    Found(Record, usize),
    /// The bytes at the offset are not a whole, checksum-valid record.
    Corrupt,
}

/// The stored checksum of the record starting at `off`.
pub open spec fn rec_checksum(log: Seq<u8>, off: int) -> u32 {
    spec_u32_from_le_bytes(log.subrange(off, off + 4))
}

/// The kind byte of the record starting at `off`.
pub open spec fn rec_kind(log: Seq<u8>, off: int) -> u8 {
    log[off + 4]
}

/// The stored key length of the record starting at `off`.
pub open spec fn rec_klen(log: Seq<u8>, off: int) -> u32 {
    spec_u32_from_le_bytes(log.subrange(off + 5, off + 9))
}

/// The stored value length of the record starting at `off`.
pub open spec fn rec_vlen(log: Seq<u8>, off: int) -> u32 {
    spec_u32_from_le_bytes(log.subrange(off + 9, off + 13))
}

/// The offset just past the record starting at `off`.
pub open spec fn rec_end(log: Seq<u8>, off: int) -> int {
    off + 13 + rec_klen(log, off) + rec_vlen(log, off)
}

/// The key bytes of the record starting at `off`.
pub open spec fn rec_key(log: Seq<u8>, off: int) -> Seq<u8> {
    log.subrange(off + 13, off + 13 + rec_klen(log, off))
}

/// The value bytes of the record starting at `off`.
pub open spec fn rec_value(log: Seq<u8>, off: int) -> Seq<u8> {
    log.subrange(off + 13 + rec_klen(log, off), rec_end(log, off))
}

/// Whether the record starting at `off` is a tombstone.
pub open spec fn rec_tombstone(log: Seq<u8>, off: int) -> bool {
    rec_kind(log, off) == 1
}

/// Whether a whole record lies between `off` and the end of the log.
pub open spec fn rec_fits(log: Seq<u8>, off: int) -> bool {
    &&& 0 <= off
    &&& off + 13 <= log.len()
    &&& rec_end(log, off) <= log.len()
}

/// Whether a whole, well-formed record starts at `off`: it fits, its kind
/// byte is known, and its stored checksum equals the CRC-32 of its payload.
pub open spec fn rec_valid(log: Seq<u8>, off: int) -> bool {
    &&& rec_fits(log, off)
    &&& rec_kind(log, off) <= 1
    &&& rec_checksum(log, off) == crc32_of(rec_key(log, off) + rec_value(log, off))
}

/// The kind byte written for a record.
pub open spec fn kind_byte(tombstone: bool) -> u8 {
    if tombstone {
        1
    } else {
        0
    }
}

/// Whether a key and value can be framed at all: each length must fit the
/// 32-bit length field.
pub open spec fn encodable(key: Seq<u8>, value: Seq<u8>) -> bool {
    &&& key.len() <= u32::MAX
    &&& value.len() <= u32::MAX
}

/// The exact bytes of the record that frames `key` and `value`.
pub open spec fn encoded_rec(key: Seq<u8>, value: Seq<u8>, tombstone: bool) -> Seq<u8> {
    spec_u32_to_le_bytes(crc32_of(key + value)) + seq![kind_byte(tombstone)]
        + spec_u32_to_le_bytes(key.len() as u32) + spec_u32_to_le_bytes(value.len() as u32) + key
        + value
}

/// The length of an encoded record.
pub proof fn lemma_encoded_len(key: Seq<u8>, value: Seq<u8>, tombstone: bool)
    ensures
        encoded_rec(key, value, tombstone).len() == 13 + key.len() + value.len(),
{
    lemma_auto_spec_u32_to_from_le_bytes();
}

/// An encoded record embedded anywhere in a log decodes back to exactly the
/// key, value and kind it was made from, with a checksum that validates.
pub proof fn lemma_parse_encoded(log: Seq<u8>, off: int, key: Seq<u8>, value: Seq<u8>, t: bool)
    requires
        encodable(key, value),
        0 <= off,
        off + 13 + key.len() + value.len() <= log.len(),
        log.subrange(off, off + 13 + key.len() + value.len()) == encoded_rec(key, value, t),
    ensures
        rec_valid(log, off),
        rec_key(log, off) == key,
        rec_value(log, off) == value,
        rec_tombstone(log, off) == t,
        rec_checksum(log, off) == crc32_of(key + value),
        rec_klen(log, off) == key.len(),
        rec_vlen(log, off) == value.len(),
        rec_end(log, off) == off + 13 + key.len() + value.len(),
{
    lemma_auto_spec_u32_to_from_le_bytes();
    let enc = encoded_rec(key, value, t);
    let kl = key.len() as int;
    let vl = value.len() as int;
    let sa = spec_u32_to_le_bytes(crc32_of(key + value));
    let sb = seq![kind_byte(t)];
    let sc = spec_u32_to_le_bytes(key.len() as u32);
    let sd = spec_u32_to_le_bytes(value.len() as u32);
    assert(enc == sa + sb + sc + sd + key + value);
    assert(enc.len() == 13 + kl + vl);
    assert forall|k: int| 0 <= k < enc.len() implies log[off + k] == enc[k] by {
        assert(log.subrange(off, off + 13 + kl + vl)[k] == log[off + k]);
    }
    assert forall|k: int| 0 <= k < 4 implies enc[k] == sa[k] by {
        assert((sa + sb + sc + sd + key)[k] == (sa + sb + sc + sd)[k]);
        assert((sa + sb + sc + sd)[k] == (sa + sb + sc)[k]);
        assert((sa + sb + sc)[k] == (sa + sb)[k]);
        assert((sa + sb)[k] == sa[k]);
    }
    assert(log.subrange(off, off + 4) =~= sa);
    assert(rec_checksum(log, off) == crc32_of(key + value));
    assert(enc[4] == (sa + sb)[4]) by {
        assert((sa + sb + sc + sd + key)[4] == (sa + sb + sc + sd)[4]);
        assert((sa + sb + sc + sd)[4] == (sa + sb + sc)[4]);
        assert((sa + sb + sc)[4] == (sa + sb)[4]);
    }
    assert((sa + sb)[4] == sb[0]);
    assert(rec_kind(log, off) == kind_byte(t));
    assert forall|k: int| 0 <= k < 4 implies enc[5 + k] == sc[k] by {
        assert((sa + sb + sc + sd + key)[5 + k] == (sa + sb + sc + sd)[5 + k]);
        assert((sa + sb + sc + sd)[5 + k] == (sa + sb + sc)[5 + k]);
        assert((sa + sb + sc)[5 + k] == sc[k]);
    }
    assert(log.subrange(off + 5, off + 9) =~= sc);
    assert forall|k: int| 0 <= k < 4 implies enc[9 + k] == sd[k] by {
        assert((sa + sb + sc + sd + key)[9 + k] == (sa + sb + sc + sd)[9 + k]);
        assert((sa + sb + sc + sd)[9 + k] == sd[k]);
    }
    assert(log.subrange(off + 9, off + 13) =~= sd);
    assert(rec_klen(log, off) == key.len() as u32);
    assert(rec_vlen(log, off) == value.len() as u32);
    assert(rec_end(log, off) == off + 13 + kl + vl);
    assert(rec_key(log, off) =~= key) by {
        assert forall|k: int| 0 <= k < kl implies rec_key(log, off)[k] == key[k] by {
            assert(log[off + 13 + k] == enc[13 + k]);
            assert(enc[13 + k] == (sa + sb + sc + sd + key)[13 + k]);
            assert((sa + sb + sc + sd + key)[13 + k] == key[k]);
        }
    }
    assert(rec_value(log, off) =~= value) by {
        assert forall|k: int| 0 <= k < vl implies rec_value(log, off)[k] == value[k] by {
            assert(log[off + 13 + kl + k] == enc[13 + kl + k]);
            assert(enc[13 + kl + k] == value[k]);
        }
    }
}

/// Extending the log does not change any record that already fits in it.
pub proof fn lemma_rec_frame(log: Seq<u8>, ext: Seq<u8>, off: int)
    requires
        rec_fits(log, off),
    ensures
        rec_fits(log + ext, off),
        rec_checksum(log + ext, off) == rec_checksum(log, off),
        rec_kind(log + ext, off) == rec_kind(log, off),
        rec_klen(log + ext, off) == rec_klen(log, off),
        rec_vlen(log + ext, off) == rec_vlen(log, off),
        rec_end(log + ext, off) == rec_end(log, off),
        rec_key(log + ext, off) == rec_key(log, off),
        rec_value(log + ext, off) == rec_value(log, off),
        rec_valid(log + ext, off) == rec_valid(log, off),
        rec_tombstone(log + ext, off) == rec_tombstone(log, off),
{
    let log2 = log + ext;
    assert(log2.subrange(off, off + 4) =~= log.subrange(off, off + 4));
    assert(log2.subrange(off + 5, off + 9) =~= log.subrange(off + 5, off + 9));
    assert(log2.subrange(off + 9, off + 13) =~= log.subrange(off + 9, off + 13));
    assert(rec_klen(log2, off) == rec_klen(log, off));
    assert(rec_vlen(log2, off) == rec_vlen(log, off));
    assert(log2.subrange(off + 13, off + 13 + rec_klen(log, off)) =~= log.subrange(
        off + 13,
        off + 13 + rec_klen(log, off),
    ));
    assert(log2.subrange(off + 13 + rec_klen(log, off), rec_end(log, off)) =~= log.subrange(
        off + 13 + rec_klen(log, off),
        rec_end(log, off),
    ));
    assert(rec_key(log2, off) == rec_key(log, off));
}

/// Appends all of `data` to `out`.
fn push_all(out: &mut Vec<u8>, data: &[u8])
    ensures
        final(out)@ == old(out)@ + data@,
{
    let mut i: usize = 0;
    while i < data.len()
        invariant
            0 <= i <= data@.len(),
            out@ == old(out)@ + data@.subrange(0, i as int),
        decreases data@.len() - i,
    {
        out.push(data[i]);
        proof {
            assert(old(out)@ + data@.subrange(0, i + 1) =~= (old(out)@ + data@.subrange(
                0,
                i as int,
            )).push(data@[i as int]));
        }
        i = i + 1;
    }
    proof {
        assert(data@.subrange(0, data@.len() as int) =~= data@);
    }
}

/// Frames `key` and `value` as one record: checksum, kind byte, the two
/// lengths, then the raw bytes.
pub fn encode(key: &[u8], value: &[u8], tombstone: bool) -> (out: Vec<u8>)
    requires
        encodable(key@, value@),
    ensures
        out@ == encoded_rec(key@, value@, tombstone),
        out@.len() == 13 + key@.len() + value@.len(),
{
    proof {
        lemma_auto_spec_u32_to_from_le_bytes();
    }
    let checksum = crc32_pair(key, value);
    let mut out = u32_to_le_bytes(checksum);
    out.push(if tombstone {
        1u8
    } else {
        0u8
    });
    let mut klen = u32_to_le_bytes(key.len() as u32);
    let mut vlen = u32_to_le_bytes(value.len() as u32);
    out.append(&mut klen);
    out.append(&mut vlen);
    push_all(&mut out, key);
    push_all(&mut out, value);
    proof {
        assert(out@ =~= encoded_rec(key@, value@, tombstone));
    }
    out
}

/// Reads the record starting at `off`, if a whole, checksum-valid one lies
/// there; reports a clean end of log at the log's final offset, and
/// corruption for anything else.
pub fn decode_at(log: &[u8], off: usize) -> (r: Decoded)
    requires
        off <= log@.len(),
    ensures
        off == log@.len() ==> r is EndOfLog,
        off < log@.len() && rec_valid(log@, off as int) ==> (r matches Decoded::Found(rec, end)
            && rec.checksum == rec_checksum(log@, off as int) && rec.key@ == rec_key(
            log@,
            off as int,
        ) && rec.value@ == rec_value(log@, off as int) && rec.tombstone == rec_tombstone(
            log@,
            off as int,
        ) && end == rec_end(log@, off as int)),
        off < log@.len() && !rec_valid(log@, off as int) ==> r is Corrupt,
{
    if off == log.len() {
        return Decoded::EndOfLog;
    }
    let remaining: usize = log.len() - off;
    if remaining < 13 {
        return Decoded::Corrupt;
    }
    let checksum = u32_from_le_bytes(slice_subrange(log, off, off + 4));
    let kind = *slice_index_get(log, off + 4);
    let klen = u32_from_le_bytes(slice_subrange(log, off + 5, off + 9));
    let vlen = u32_from_le_bytes(slice_subrange(log, off + 9, off + 13));
    if kind > 1 {
        return Decoded::Corrupt;
    }
    if (klen as u64) + (vlen as u64) > (remaining as u64) - 13 {
        assert(rec_end(log@, off as int) > log@.len());
        return Decoded::Corrupt;
    }
    let koff = off + 13;
    let kend = koff + (klen as usize);
    let vend = kend + (vlen as usize);
    let key_slice = slice_subrange(log, koff, kend);
    let value_slice = slice_subrange(log, kend, vend);
    let computed = crc32_pair(key_slice, value_slice);
    if computed != checksum {
        return Decoded::Corrupt;
    }
    let rec = Record {
        checksum,
        key: slice_to_vec(key_slice),
        value: slice_to_vec(value_slice),
        tombstone: kind == 1,
    };
    Decoded::Found(rec, vend)
}

/// The round trip law: framing any key and value, even empty ones, and
/// decoding the frame reproduces the key, the value and the kind, under a
/// checksum that validates.
pub proof fn lemma_encode_decode_round_trip(key: Seq<u8>, value: Seq<u8>, tombstone: bool)
    requires
        encodable(key, value),
    ensures
        rec_valid(encoded_rec(key, value, tombstone), 0),
        rec_key(encoded_rec(key, value, tombstone), 0) == key,
        rec_value(encoded_rec(key, value, tombstone), 0) == value,
        rec_tombstone(encoded_rec(key, value, tombstone), 0) == tombstone,
        rec_checksum(encoded_rec(key, value, tombstone), 0) == crc32_of(key + value),
        rec_end(encoded_rec(key, value, tombstone), 0) == encoded_rec(
            key,
            value,
            tombstone,
        ).len(),
{
    let enc = encoded_rec(key, value, tombstone);
    lemma_encoded_len(key, value, tombstone);
    assert(enc.subrange(0, 13 + key.len() + value.len() as int) =~= enc);
    lemma_parse_encoded(enc, 0, key, value, tombstone);
}

/// Changing any single byte of a stored record's payload, the key and value
/// bytes that the checksum covers, leaves no valid record at that offset: a
/// read there reports corruption rather than serving changed data.
pub proof fn lemma_payload_flip_detected(log: Seq<u8>, off: int, j: int, b: u8)
    requires
        rec_valid(log, off),
        off + 13 <= j < rec_end(log, off),
        b != log[j],
    ensures
        !rec_valid(log.update(j, b), off),
{
    let log2 = log.update(j, b);
    assert(log2.subrange(off, off + 4) =~= log.subrange(off, off + 4));
    assert(log2.subrange(off + 5, off + 9) =~= log.subrange(off + 5, off + 9));
    assert(log2.subrange(off + 9, off + 13) =~= log.subrange(off + 9, off + 13));
    assert(rec_klen(log2, off) == rec_klen(log, off));
    assert(rec_vlen(log2, off) == rec_vlen(log, off));
    assert(rec_end(log2, off) == rec_end(log, off));
    let p1 = rec_key(log, off) + rec_value(log, off);
    let p2 = rec_key(log2, off) + rec_value(log2, off);
    let kl = rec_klen(log, off) as int;
    assert(p1 =~= log.subrange(off + 13, rec_end(log, off))) by {
        assert forall|k: int| 0 <= k < p1.len() implies p1[k] == log.subrange(
            off + 13,
            rec_end(log, off),
        )[k] by {}
    }
    assert(p2 =~= log2.subrange(off + 13, rec_end(log, off))) by {
        assert forall|k: int| 0 <= k < p2.len() implies p2[k] == log2.subrange(
            off + 13,
            rec_end(log, off),
        )[k] by {}
    }
    let i = j - (off + 13);
    assert(p1.len() == p2.len());
    assert(p2[i] == b && p1[i] == log[j]);
    assert(forall|k: int| 0 <= k < p1.len() && k != i ==> p1[k] == p2[k]);
    crate::checksum::lemma_crc32_single_byte_diff(p1, p2, i);
    assert(rec_checksum(log2, off) == rec_checksum(log, off));
}

} // verus!
