//! Serializing the index for persistence inside the log.
//!
//! A snapshot is the index's key/offset pair list, with the reserved key
//! stripped, encoded to bytes by bincode and stored as the value of an
//! ordinary record. The byte image is named, not spelled out: the contracts
//! only say that it is a function of the pairs and that decoding inverts
//! encoding, which is what the store needs.

use vstd::prelude::*;

use crate::index::pair_views;

verus! {

/// The bytes bincode's default configuration produces for a pair list: a
/// function of the pairs alone.
pub uninterp spec fn snapshot_bytes_of(pairs: Seq<(Seq<u8>, u64)>) -> Seq<u8>;

/// Relies on bincode::serialize: with its default configuration (fixed-width
/// little-endian integers, length-prefixed sequences) it encodes a
/// `Vec<(Vec<u8>, u64)>` deterministically, as a function of the pairs alone.
/// On this type it cannot fail: its size limit is infinite and it writes
/// into a growing byte vector, so the call always returns the encoding.
#[verifier::external_body]
pub(crate) fn serialize_pairs(pairs: &Vec<(Vec<u8>, u64)>) -> (r: Option<Vec<u8>>)
    ensures
        r is Some,
        r matches Some(b) ==> b@ == snapshot_bytes_of(pair_views(pairs@)),
{
    match bincode::serialize(pairs) {
        Ok(b) => Some(b),
        Err(_) => None,
    }
}

/// Relies on bincode::deserialize: it inverts bincode::serialize on
/// `Vec<(Vec<u8>, u64)>`, so bytes that some pair list encodes decode back to
/// exactly that pair list.
#[verifier::external_body]
pub(crate) fn deserialize_pairs(bytes: &[u8]) -> (r: Option<Vec<(Vec<u8>, u64)>>)
    ensures
        match r {
            Some(v) => forall|ps: Seq<(Seq<u8>, u64)>|
                bytes@ == #[trigger] snapshot_bytes_of(ps) ==> pair_views(v@) == ps,
            None => forall|ps: Seq<(Seq<u8>, u64)>| bytes@ != #[trigger] snapshot_bytes_of(ps),
        },
{
    match bincode::deserialize::<Vec<(Vec<u8>, u64)>>(bytes) {
        Ok(v) => Some(v),
        Err(_) => None,
    }
}

} // verus!
