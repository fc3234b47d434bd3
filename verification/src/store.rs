//! The store facade: an append-only log of records served through an
//! in-memory index.
//!
//! The log is a byte vector holding concatenated records and nothing else;
//! reading and writing it as a file is the caller's business. `load` builds
//! the index by a full scan, folding every record in file order so that the
//! last record for a key wins and a tombstone removes the key; because
//! deletes append tombstones, a rescan reproduces deletions too. The index
//! can be snapshotted into the log itself under a caller-chosen reserved key;
//! the snapshot's own prior entry is stripped first so a snapshot never
//! embeds a stale copy of itself. The in-memory index built by `load` is the
//! single source of truth while serving; `load` never consults a snapshot,
//! which is only read back on demand through `read_snapshot`.

use vstd::prelude::*;

use crate::checksum::crc32_of;
use crate::codec::{
    decode_at, encodable, encode, encoded_rec, lemma_encoded_len, lemma_parse_encoded,
    lemma_rec_frame, rec_checksum, rec_end, rec_key, rec_tombstone, rec_valid, rec_value, Decoded,
    Record,
};
use crate::index::{pair_views, pairs_map, strip_key, Index};
use crate::snapshot::{deserialize_pairs, serialize_pairs, snapshot_bytes_of};
use crate::KvError;

verus! {

/// One scanned record: its starting offset, key, value, and whether it is a
/// tombstone.
pub type RecEntry = (int, Seq<u8>, Seq<u8>, bool);

/// The records of the log from `off` to the end, in file order; `None` when
/// anything but a clean end of log interrupts the walk.
pub open spec fn records_from(log: Seq<u8>, off: int) -> Option<Seq<RecEntry>>
    decreases log.len() - off,
{
    if off == log.len() {
        Some(Seq::empty())
    } else if rec_valid(log, off) {
        match records_from(log, rec_end(log, off)) {
            Some(rest) => Some(
                seq![(off, rec_key(log, off), rec_value(log, off), rec_tombstone(log, off))]
                    + rest,
            ),
            None => None,
        }
    } else {
        None
    }
}

/// Whether the whole log parses as concatenated, checksum-valid records.
pub open spec fn log_wf(log: Seq<u8>) -> bool {
    records_from(log, 0) is Some
}

/// The records of a well-formed log, in file order.
pub open spec fn log_records(log: Seq<u8>) -> Seq<RecEntry> {
    match records_from(log, 0) {
        Some(rs) => rs,
        None => Seq::empty(),
    }
}

/// The mapping a record sequence builds: in order, a value record maps its
/// key to its offset and a tombstone removes its key, so the last record for
/// a key wins.
pub open spec fn fold_records(rs: Seq<RecEntry>) -> Map<Seq<u8>, u64>
    decreases rs.len(),
{
    if rs.len() == 0 {
        Map::empty()
    } else {
        let m = fold_records(rs.drop_last());
        let e = rs.last();
        if e.3 {
            m.remove(e.1)
        } else {
            m.insert(e.1, e.0 as u64)
        }
    }
}

/// The index a full scan of the log rebuilds.
pub open spec fn log_index(log: Seq<u8>) -> Map<Seq<u8>, u64> {
    fold_records(log_records(log))
}

/// Every scanned record is a valid record of the log, read back field for
/// field from its offset.
proof fn lemma_records_entries(log: Seq<u8>, off: int, rs: Seq<RecEntry>)
    requires
        records_from(log, off) == Some(rs),
    ensures
        forall|i: int| 0 <= i < rs.len() ==> off <= (#[trigger] rs[i]).0 && rec_valid(log, rs[i].0)
            && rs[i].1 == rec_key(log, rs[i].0) && rs[i].2 == rec_value(log, rs[i].0) && rs[i].3
            == rec_tombstone(log, rs[i].0),
    decreases log.len() - off,
{
    if off == log.len() {
    } else {
        assert(rec_valid(log, off));
        match records_from(log, rec_end(log, off)) {
            Some(rest) => {
                lemma_records_entries(log, rec_end(log, off), rest);
                let e = (off, rec_key(log, off), rec_value(log, off), rec_tombstone(log, off));
                assert(rs == seq![e] + rest);
                assert forall|i: int| 0 <= i < rs.len() implies off <= (#[trigger] rs[i]).0
                    && rec_valid(log, rs[i].0) && rs[i].1 == rec_key(log, rs[i].0) && rs[i].2
                    == rec_value(log, rs[i].0) && rs[i].3 == rec_tombstone(log, rs[i].0) by {
                    if i == 0 {
                        assert(rs[0] == e);
                    } else {
                        assert(rs[i] == rest[i - 1]);
                    }
                }
            },
            None => {
                assert(false);
            },
        }
    }
}

/// Every offset the fold keeps points at a valid, non-tombstone record whose
/// key is the mapping key.
proof fn lemma_fold_points(log: Seq<u8>, rs: Seq<RecEntry>)
    requires
        log.len() <= u64::MAX,
        forall|i: int| 0 <= i < rs.len() ==> 0 <= (#[trigger] rs[i]).0 && rec_valid(log, rs[i].0)
            && rs[i].1 == rec_key(log, rs[i].0) && rs[i].3 == rec_tombstone(log, rs[i].0),
    ensures
        forall|k: Seq<u8>| #[trigger] fold_records(rs).contains_key(k) ==> fold_records(rs)[k]
            < log.len() && rec_valid(log, fold_records(rs)[k] as int) && !rec_tombstone(
            log,
            fold_records(rs)[k] as int,
        ) && rec_key(log, fold_records(rs)[k] as int) == k,
    decreases rs.len(),
{
    if rs.len() > 0 {
        assert(forall|i: int|
            0 <= i < rs.drop_last().len() ==> rs.drop_last()[i] == (#[trigger] rs[i]));
        lemma_fold_points(log, rs.drop_last());
        let e = rs.last();
        assert(e == rs[rs.len() - 1]);
        let m = fold_records(rs.drop_last());
        if e.3 {
            assert forall|k: Seq<u8>| #[trigger] fold_records(rs).contains_key(k) implies
                fold_records(rs)[k] < log.len() && rec_valid(log, fold_records(rs)[k] as int)
                && !rec_tombstone(log, fold_records(rs)[k] as int) && rec_key(
                log,
                fold_records(rs)[k] as int,
            ) == k by {
                assert(m.contains_key(k) && fold_records(rs)[k] == m[k]);
            }
        } else {
            assert(rec_valid(log, e.0));
            assert(e.0 + 13 <= log.len());
            assert((e.0 as u64) as int == e.0);
            assert forall|k: Seq<u8>| #[trigger] fold_records(rs).contains_key(k) implies
                fold_records(rs)[k] < log.len() && rec_valid(log, fold_records(rs)[k] as int)
                && !rec_tombstone(log, fold_records(rs)[k] as int) && rec_key(
                log,
                fold_records(rs)[k] as int,
            ) == k by {
                if k == e.1 {
                    assert(fold_records(rs)[k] == e.0 as u64);
                } else {
                    assert(m.contains_key(k) && fold_records(rs)[k] == m[k]);
                }
            }
        }
    }
}

/// The index a well-formed log rebuilds points every key at a valid,
/// non-tombstone record holding that key.
pub proof fn lemma_log_index_points(log: Seq<u8>)
    requires
        log_wf(log),
        log.len() <= u64::MAX,
    ensures
        forall|k: Seq<u8>| #[trigger] log_index(log).contains_key(k) ==> log_index(log)[k]
            < log.len() && rec_valid(log, log_index(log)[k] as int) && !rec_tombstone(
            log,
            log_index(log)[k] as int,
        ) && rec_key(log, log_index(log)[k] as int) == k,
{
    let rs = log_records(log);
    assert(records_from(log, 0) == Some(rs));
    lemma_records_entries(log, 0, rs);
    lemma_fold_points(log, rs);
}

/// Appending one encoded record to a log tail that parses extends the parse
/// by exactly that record.
proof fn lemma_records_append(
    log: Seq<u8>,
    off: int,
    rs: Seq<RecEntry>,
    key: Seq<u8>,
    value: Seq<u8>,
    t: bool,
)
    requires
        encodable(key, value),
        0 <= off <= log.len(),
        records_from(log, off) == Some(rs),
    ensures
        records_from(log + encoded_rec(key, value, t), off) == Some(
            rs.push((log.len() as int, key, value, t)),
        ),
    decreases log.len() - off,
{
    let ext = encoded_rec(key, value, t);
    let log2 = log + ext;
    lemma_encoded_len(key, value, t);
    let e = (log.len() as int, key, value, t);
    if off == log.len() {
        assert(log2.subrange(off, off + 13 + key.len() + value.len() as int) =~= ext);
        lemma_parse_encoded(log2, off, key, value, t);
        assert(rec_end(log2, off) == log2.len());
        assert(records_from(log2, rec_end(log2, off)) == Some(Seq::<RecEntry>::empty()));
        assert(records_from(log2, off) == Some(
            seq![(off, rec_key(log2, off), rec_value(log2, off), rec_tombstone(log2, off))]
                + Seq::<RecEntry>::empty(),
        ));
        assert(seq![e] + Seq::<RecEntry>::empty() =~= rs.push(e));
    } else {
        assert(rec_valid(log, off));
        lemma_rec_frame(log, ext, off);
        let end = rec_end(log, off);
        match records_from(log, end) {
            Some(rest) => {
                lemma_records_append(log, end, rest, key, value, t);
                let first = (off, rec_key(log, off), rec_value(log, off), rec_tombstone(log, off));
                assert(rec_end(log2, off) == end);
                assert(records_from(log2, off) == Some(seq![first] + rest.push(e)));
                assert(rs == seq![first] + rest);
                assert(seq![first] + rest.push(e) =~= (seq![first] + rest).push(e));
            },
            None => {
                assert(false);
            },
        }
    }
}

/// The store: the log bytes and the in-memory index over them.
pub struct Store {
    log: Vec<u8>,
    index: Index,
    loaded: bool,
}

impl Store {
    /// The bytes of the log.
    pub closed spec fn log_view(&self) -> Seq<u8> {
        self.log@
    }

    /// Whether `load` has populated the index for this log.
    pub closed spec fn is_loaded(&self) -> bool {
        self.loaded
    }

    /// The mapping of the in-memory index.
    pub closed spec fn index_view(&self) -> Map<Seq<u8>, u64> {
        self.index@
    }

    /// The index's key/offset pairs in list order; it only matters to the
    /// snapshot contract.
    pub closed spec fn index_pairs(&self) -> Seq<(Seq<u8>, u64)> {
        self.index.seq_view()
    }

    /// The store's well-formedness: once loaded, the log parses whole and
    /// the index is exactly what a full scan rebuilds.
    pub closed spec fn inv(&self) -> bool {
        &&& self.index.wf()
        &&& self.index@ == pairs_map(self.index.seq_view())
        &&& self.loaded ==> log_wf(self.log@) && self.index@ == log_index(self.log@)
    }

    /// The live key-to-value mapping the store serves.
    pub open spec fn contents(&self) -> Map<Seq<u8>, Seq<u8>> {
        Map::new(
            |k: Seq<u8>| self.index_view().contains_key(k),
            |k: Seq<u8>| rec_value(self.log_view(), self.index_view()[k] as int),
        )
    }

    /// Takes ownership of a log's bytes; the index is empty until `load`.
    pub fn open(log_bytes: Vec<u8>) -> (s: Store)
        ensures
            s.inv(),
            !s.is_loaded(),
            s.log_view() == log_bytes@,
    {
        Store { log: log_bytes, index: Index::new(), loaded: false }
    }

    /// The log bytes, for the caller to write back out.
    pub fn log_bytes(&self) -> (r: &Vec<u8>)
        ensures
            r@ == self.log_view(),
    {
        &self.log
    }

    /// Builds the index by a full scan: every record in file order, the last
    /// record per key winning and tombstones removing their key. Fails with
    /// `CorruptRecord`, leaving the store unloaded, exactly when the log does
    /// not parse whole.
    pub fn load(&mut self) -> (r: Result<(), KvError>)
        requires
            old(self).inv(),
        ensures
            final(self).inv(),
            final(self).log_view() == old(self).log_view(),
            log_wf(old(self).log_view()) ==> r == Ok::<(), KvError>(()) && final(self).is_loaded()
                && final(self).index_view() == log_index(old(self).log_view()),
            !log_wf(old(self).log_view()) ==> r == Err::<(), KvError>(KvError::CorruptRecord)
                && !final(self).is_loaded(),
    {
        let mut idx = Index::new();
        let mut off: usize = 0;
        let ghost mut done: Seq<RecEntry> = Seq::empty();
        loop
            invariant
                old(self).inv(),
                *self == *old(self),
                0 <= off <= self.log@.len(),
                idx.wf(),
                idx@ == fold_records(done),
                idx@ == pairs_map(idx.seq_view()),
                match records_from(self.log@, off as int) {
                    Some(rest) => records_from(self.log@, 0) == Some(done + rest),
                    None => records_from(self.log@, 0) is None,
                },
            decreases self.log@.len() - off,
        {
            match decode_at(self.log.as_slice(), off) {
                Decoded::EndOfLog => {
                    proof {
                        assert(off == self.log@.len());
                        assert(records_from(self.log@, off as int) == Some(
                            Seq::<RecEntry>::empty(),
                        ));
                        assert(done + Seq::<RecEntry>::empty() =~= done);
                    }
                    self.index = idx;
                    self.loaded = true;
                    return Ok(());
                },
                Decoded::Found(rec, end) => {
                    let ghost lv = self.log@;
                    let ghost o = off as int;
                    proof {
                        assert(off < lv.len() && rec_valid(lv, o));
                        assert(end == rec_end(lv, o));
                    }
                    let ghost e = (o, rec_key(lv, o), rec_value(lv, o), rec_tombstone(lv, o));
                    proof {
                        match records_from(lv, rec_end(lv, o)) {
                            Some(rest2) => {
                                assert(records_from(lv, o) == Some(seq![e] + rest2));
                                assert(done + (seq![e] + rest2) =~= done.push(e) + rest2);
                            },
                            None => {
                                assert(records_from(lv, o) is None);
                            },
                        }
                        assert(done.push(e).drop_last() =~= done);
                        assert(done.push(e).last() == e);
                    }
                    if rec.tombstone {
                        idx.remove_key(rec.key.as_slice());
                    } else {
                        idx.set(rec.key.as_slice(), off as u64);
                    }
                    proof {
                        done = done.push(e);
                        idx.lemma_view_is_seq_view();
                    }
                    off = end;
                },
                Decoded::Corrupt => {
                    proof {
                        assert(records_from(self.log@, off as int) is None);
                        assert(!log_wf(self.log@));
                    }
                    return Err(KvError::CorruptRecord);
                },
            }
        }
    }

    /// Walks the whole log from offset zero and returns every record with
    /// the offset it starts at, in file order; restartable, since it leaves
    /// the store untouched. Fails with `CorruptRecord` exactly when some
    /// record mid-file is truncated or checksum-invalid.
    pub fn scan(&self) -> (r: Result<Vec<(u64, Record)>, KvError>)
        ensures
            log_wf(self.log_view()) ==> (r matches Ok(v) && {
                let rs = log_records(self.log_view());
                &&& v@.len() == rs.len()
                &&& forall|i: int| 0 <= i < rs.len() ==> (#[trigger] v@[i]).0 == rs[i].0 as u64
                    && v@[i].1.key@ == rs[i].1 && v@[i].1.value@ == rs[i].2 && v@[i].1.tombstone
                    == rs[i].3 && v@[i].1.checksum == crc32_of(rs[i].1 + rs[i].2)
            }),
            !log_wf(self.log_view()) ==> r == Err::<Vec<(u64, Record)>, KvError>(
                KvError::CorruptRecord,
            ),
    {
        let mut out: Vec<(u64, Record)> = Vec::new();
        let mut off: usize = 0;
        let ghost mut done: Seq<RecEntry> = Seq::empty();
        loop
            invariant
                0 <= off <= self.log@.len(),
                out@.len() == done.len(),
                forall|i: int| 0 <= i < done.len() ==> (#[trigger] out@[i]).0 == done[i].0 as u64
                    && out@[i].1.key@ == done[i].1 && out@[i].1.value@ == done[i].2
                    && out@[i].1.tombstone == done[i].3 && out@[i].1.checksum == crc32_of(
                    done[i].1 + done[i].2,
                ),
                forall|i: int| 0 <= i < done.len() ==> 0 <= (#[trigger] done[i]).0,
                match records_from(self.log@, off as int) {
                    Some(rest) => records_from(self.log@, 0) == Some(done + rest),
                    None => records_from(self.log@, 0) is None,
                },
            decreases self.log@.len() - off,
        {
            match decode_at(self.log.as_slice(), off) {
                Decoded::EndOfLog => {
                    proof {
                        assert(records_from(self.log@, off as int) == Some(
                            Seq::<RecEntry>::empty(),
                        ));
                        assert(done + Seq::<RecEntry>::empty() =~= done);
                    }
                    return Ok(out);
                },
                Decoded::Found(rec, end) => {
                    let ghost lv = self.log@;
                    let ghost o = off as int;
                    let ghost e = (o, rec_key(lv, o), rec_value(lv, o), rec_tombstone(lv, o));
                    proof {
                        match records_from(lv, rec_end(lv, o)) {
                            Some(rest2) => {
                                assert(records_from(lv, o) == Some(seq![e] + rest2));
                                assert(done + (seq![e] + rest2) =~= done.push(e) + rest2);
                            },
                            None => {
                                assert(records_from(lv, o) is None);
                            },
                        }
                    }
                    out.push((off as u64, rec));
                    proof {
                        done = done.push(e);
                    }
                    off = end;
                },
                Decoded::Corrupt => {
                    proof {
                        assert(records_from(self.log@, off as int) is None);
                    }
                    return Err(KvError::CorruptRecord);
                },
            }
        }
    }

    /// Reads the record that starts at `offset`, straight from the log:
    /// `NotFound` past the end, `CorruptRecord` when no whole, checksum-valid
    /// record starts there, and exactly the stored record otherwise.
    pub fn read_at(&self, offset: u64) -> (r: Result<Record, KvError>)
        ensures
            offset >= self.log_view().len() ==> r == Err::<Record, KvError>(KvError::NotFound),
            offset < self.log_view().len() && rec_valid(self.log_view(), offset as int) ==> (r
                matches Ok(rec) && rec.key@ == rec_key(self.log_view(), offset as int)
                && rec.value@ == rec_value(self.log_view(), offset as int) && rec.tombstone
                == rec_tombstone(self.log_view(), offset as int) && rec.checksum == rec_checksum(
                self.log_view(),
                offset as int,
            )),
            offset < self.log_view().len() && !rec_valid(self.log_view(), offset as int) ==> r
                == Err::<Record, KvError>(KvError::CorruptRecord),
    {
        let len = self.log.len();
        if offset >= len as u64 {
            return Err(KvError::NotFound);
        }
        match decode_at(self.log.as_slice(), offset as usize) {
            Decoded::Found(rec, _) => Ok(rec),
            Decoded::Corrupt => Err(KvError::CorruptRecord),
            Decoded::EndOfLog => {
                proof {
                    assert(false);
                }
                Err(KvError::NotFound)
            },
        }
    }

    /// Reads one record by raw offset, bypassing the index.
    pub fn get_at(&self, offset: u64) -> (r: Result<Record, KvError>)
        ensures
            offset >= self.log_view().len() ==> r == Err::<Record, KvError>(KvError::NotFound),
            offset < self.log_view().len() && rec_valid(self.log_view(), offset as int) ==> (r
                matches Ok(rec) && rec.key@ == rec_key(self.log_view(), offset as int)
                && rec.value@ == rec_value(self.log_view(), offset as int) && rec.tombstone
                == rec_tombstone(self.log_view(), offset as int) && rec.checksum == rec_checksum(
                self.log_view(),
                offset as int,
            )),
            offset < self.log_view().len() && !rec_valid(self.log_view(), offset as int) ==> r
                == Err::<Record, KvError>(KvError::CorruptRecord),
    {
        self.read_at(offset)
    }

    /// Looks `key` up in the in-memory index and serves its latest record.
    /// A missing key is the `Ok(None)` outcome, never an error; a present key
    /// always yields its record, because the index only points at valid
    /// records.
    pub fn get(&self, key: &[u8]) -> (r: Result<Option<Record>, KvError>)
        requires
            self.inv(),
            self.is_loaded(),
        ensures
            self.index_view().contains_key(key@) ==> (r matches Ok(Some(rec)) && rec.key@ == key@
                && rec.value@ == self.contents()[key@] && !rec.tombstone && rec.checksum
                == crc32_of(key@ + self.contents()[key@])),
            !self.index_view().contains_key(key@) ==> r == Ok::<Option<Record>, KvError>(None),
    {
        let len = self.log.len();
        proof {
            assert(usize::MAX <= u64::MAX);
            lemma_log_index_points(self.log@);
        }
        match self.index.get(key) {
            Some(off) => {
                match self.read_at(off) {
                    Ok(rec) => Ok(Some(rec)),
                    Err(e) => {
                        proof {
                            assert(false);
                        }
                        Err(e)
                    },
                }
            },
            None => Ok(None),
        }
    }

    /// Appends one value record for `key` and points the index at it.
    /// Returns the offset where the record begins.
    pub fn insert(&mut self, key: &[u8], value: &[u8]) -> (r: Result<u64, KvError>)
        requires
            old(self).inv(),
            old(self).is_loaded(),
            key@.len() <= u32::MAX,
            value@.len() <= u32::MAX,
            old(self).log_view().len() + 13 + key@.len() + value@.len() <= usize::MAX,
        ensures
            final(self).inv(),
            final(self).is_loaded(),
            r == Ok::<u64, KvError>(old(self).log_view().len() as u64),
            final(self).log_view() == old(self).log_view() + encoded_rec(key@, value@, false),
            final(self).index_view() == old(self).index_view().insert(
                key@,
                old(self).log_view().len() as u64,
            ),
            final(self).contents() == old(self).contents().insert(key@, value@),
    {
        let off = self.log.len();
        let mut rec = encode(key, value, false);
        self.log.append(&mut rec);
        self.index.set(key, off as u64);
        proof {
            self.index.lemma_view_is_seq_view();
            let lv = old(self).log_view();
            let ext = encoded_rec(key@, value@, false);
            let log2 = lv + ext;
            let rs = log_records(lv);
            assert(records_from(lv, 0) == Some(rs));
            lemma_records_append(lv, 0, rs, key@, value@, false);
            lemma_encoded_len(key@, value@, false);
            let e = (lv.len() as int, key@, value@, false);
            assert(log_records(log2) == rs.push(e));
            assert(rs.push(e).drop_last() =~= rs);
            assert(rs.push(e).last() == e);
            assert(usize::MAX <= u64::MAX);
            assert((e.0 as u64) == off as u64);
            assert(log_index(log2) == fold_records(rs).insert(key@, off as u64));
            assert(self.log@ == log2);
            assert(self.index@ == log_index(log2));
            lemma_log_index_points(lv);
            assert(log2.subrange(lv.len() as int, lv.len() + 13 + key@.len() + value@.len() as int)
                =~= ext);
            lemma_parse_encoded(log2, lv.len() as int, key@, value@, false);
            assert forall|k: Seq<u8>| #[trigger] old(self).index_view().contains_key(k) && k
                != key@ implies rec_value(log2, old(self).index_view()[k] as int) == rec_value(
                lv,
                old(self).index_view()[k] as int,
            ) by {
                lemma_rec_frame(lv, ext, old(self).index_view()[k] as int);
            }
            assert(final(self).contents() =~= old(self).contents().insert(key@, value@));
        }
        Ok(off as u64)
    }

    /// An upsert identical to `insert`: the caller-facing label differs, the
    /// storage layer does not distinguish them.
    pub fn update(&mut self, key: &[u8], value: &[u8]) -> (r: Result<u64, KvError>)
        requires
            old(self).inv(),
            old(self).is_loaded(),
            key@.len() <= u32::MAX,
            value@.len() <= u32::MAX,
            old(self).log_view().len() + 13 + key@.len() + value@.len() <= usize::MAX,
        ensures
            final(self).inv(),
            final(self).is_loaded(),
            r == Ok::<u64, KvError>(old(self).log_view().len() as u64),
            final(self).log_view() == old(self).log_view() + encoded_rec(key@, value@, false),
            final(self).index_view() == old(self).index_view().insert(
                key@,
                old(self).log_view().len() as u64,
            ),
            final(self).contents() == old(self).contents().insert(key@, value@),
    {
        self.insert(key, value)
    }

    /// Appends a tombstone record for `key` and removes the key from the
    /// index, so the deletion survives a full rescan of the log.
    pub fn delete(&mut self, key: &[u8]) -> (r: Result<(), KvError>)
        requires
            old(self).inv(),
            old(self).is_loaded(),
            key@.len() <= u32::MAX,
            old(self).log_view().len() + 13 + key@.len() <= usize::MAX,
        ensures
            final(self).inv(),
            final(self).is_loaded(),
            r == Ok::<(), KvError>(()),
            final(self).log_view() == old(self).log_view() + encoded_rec(
                key@,
                Seq::empty(),
                true,
            ),
            final(self).index_view() == old(self).index_view().remove(key@),
            final(self).contents() == old(self).contents().remove(key@),
    {
        let off = self.log.len();
        let empty_value: Vec<u8> = Vec::new();
        let mut rec = encode(key, empty_value.as_slice(), true);
        self.log.append(&mut rec);
        self.index.remove_key(key);
        proof {
            self.index.lemma_view_is_seq_view();
            let lv = old(self).log_view();
            let ext = encoded_rec(key@, Seq::<u8>::empty(), true);
            let log2 = lv + ext;
            let rs = log_records(lv);
            assert(records_from(lv, 0) == Some(rs));
            lemma_records_append(lv, 0, rs, key@, Seq::empty(), true);
            lemma_encoded_len(key@, Seq::empty(), true);
            let e = (lv.len() as int, key@, Seq::<u8>::empty(), true);
            assert(log_records(log2) == rs.push(e));
            assert(rs.push(e).drop_last() =~= rs);
            assert(rs.push(e).last() == e);
            assert(log_index(log2) == fold_records(rs).remove(key@));
            assert(self.log@ == log2);
            assert(self.index@ == log_index(log2));
            lemma_log_index_points(lv);
            assert forall|k: Seq<u8>| #[trigger] old(self).index_view().contains_key(k) && k
                != key@ implies rec_value(log2, old(self).index_view()[k] as int) == rec_value(
                lv,
                old(self).index_view()[k] as int,
            ) by {
                lemma_rec_frame(lv, ext, old(self).index_view()[k] as int);
            }
            assert(final(self).contents() =~= old(self).contents().remove(key@));
        }
        Ok(())
    }

    /// Snapshots the index into the log: strips the reserved key's own entry
    /// from the pair list, encodes the rest, and inserts the bytes as an
    /// ordinary record under the reserved key. Succeeds whenever the snapshot
    /// fits the record format and memory, and fails with
    /// `SerializationError`, leaving the store untouched, exactly otherwise:
    /// when the encoded snapshot outgrows the 32-bit value-length field or
    /// the grown log would not fit in memory.
    pub fn persist_index(&mut self, reserved_key: &[u8]) -> (r: Result<u64, KvError>)
        requires
            old(self).inv(),
            old(self).is_loaded(),
            reserved_key@.len() <= u32::MAX,
        ensures
            final(self).inv(),
            final(self).is_loaded(),
            r matches Ok(off) ==> {
                let bytes = snapshot_bytes_of(strip_key(old(self).index_pairs(), reserved_key@));
                &&& off == old(self).log_view().len() as u64
                &&& final(self).log_view() == old(self).log_view() + encoded_rec(
                    reserved_key@,
                    bytes,
                    false,
                )
                &&& final(self).index_view() == old(self).index_view().insert(reserved_key@, off)
                &&& final(self).contents() == old(self).contents().insert(reserved_key@, bytes)
            },
            r is Err ==> r == Err::<u64, KvError>(KvError::SerializationError) && *final(self)
                == *old(self),
            ({
                let bytes = snapshot_bytes_of(strip_key(old(self).index_pairs(), reserved_key@));
                r is Err <==> bytes.len() > u32::MAX || old(self).log_view().len() + 13
                    + reserved_key@.len() + bytes.len() > usize::MAX
            }),
    {
        let pairs = self.index.entries_except(reserved_key);
        match serialize_pairs(&pairs) {
            Some(bytes) => {
                if bytes.len() > (u32::MAX as usize) {
                    return Err(KvError::SerializationError);
                }
                let log_len = self.log.len();
                if usize::MAX - 13 < log_len || usize::MAX - 13 - log_len < reserved_key.len()
                    || usize::MAX - 13 - log_len - reserved_key.len() < bytes.len() {
                    return Err(KvError::SerializationError);
                }
                self.insert(reserved_key, bytes.as_slice())
            },
            None => {
                proof {
                    assert(false);
                }
                Err(KvError::SerializationError)
            },
        }
    }

    /// The index mapping is the pair list's mapping, so a decoded snapshot's
    /// mapping is, by `lemma_strip_key_map`, the index mapping with the
    /// reserved key removed.
    pub proof fn lemma_index_is_pairs_map(&self)
        requires
            self.inv(),
        ensures
            self.index_view() == pairs_map(self.index_pairs()),
    {
    }

    /// Reads the persisted index snapshot back: the reserved key's current
    /// value, decoded to the pair list it was made from.
    pub fn read_snapshot(&self, reserved_key: &[u8]) -> (r: Option<Vec<(Vec<u8>, u64)>>)
        requires
            self.inv(),
            self.is_loaded(),
        ensures
            forall|ps: Seq<(Seq<u8>, u64)>| (self.index_view().contains_key(reserved_key@)
                && self.contents()[reserved_key@] == #[trigger] snapshot_bytes_of(ps)) ==> (r
                matches Some(v) && pair_views(v@) == ps),
            !self.index_view().contains_key(reserved_key@) ==> r is None,
    {
        match self.get(reserved_key) {
            Ok(Some(rec)) => deserialize_pairs(rec.value.as_slice()),
            Ok(None) => None,
            Err(_) => {
                proof {
                    assert(false);
                }
                None
            },
        }
    }
}

/// A sequence of upserts applied to a key-to-value mapping, first to last.
/// `Store::insert` and `Store::update` each ensure exactly one such step on
/// `contents`, so any write session denotes one `apply_writes`.
pub open spec fn apply_writes(
    m: Map<Seq<u8>, Seq<u8>>,
    ops: Seq<(Seq<u8>, Seq<u8>)>,
) -> Map<Seq<u8>, Seq<u8>>
    decreases ops.len(),
{
    if ops.len() == 0 {
        m
    } else {
        apply_writes(m, ops.drop_last()).insert(ops.last().0, ops.last().1)
    }
}

/// The last write wins: after any sequence of inserts and updates, a key
/// whose final write is `ops[i]` is mapped to exactly that write's value, so
/// `get` then serves it.
pub proof fn lemma_last_write_wins(m: Map<Seq<u8>, Seq<u8>>, ops: Seq<(Seq<u8>, Seq<u8>)>, i: int)
    requires
        0 <= i < ops.len(),
        forall|j: int| i < j < ops.len() ==> ops[j].0 != ops[i].0,
    ensures
        apply_writes(m, ops).contains_key(ops[i].0),
        apply_writes(m, ops)[ops[i].0] == ops[i].1,
    decreases ops.len(),
{
    if i < ops.len() - 1 {
        assert(forall|j: int| 0 <= j < ops.drop_last().len() ==> ops.drop_last()[j] == (
        #[trigger] ops[j]));
        lemma_last_write_wins(m, ops.drop_last(), i);
        assert(ops.last().0 != ops[i].0);
    }
}

/// A decoded snapshot denotes the index mapping with the reserved key
/// removed: a pair list equal, as `read_snapshot` ensures of its result, to
/// the stripped pair list, maps to exactly `index_view().remove(rk)`.
pub proof fn lemma_snapshot_is_index_minus_reserved(s: &Store, v: Seq<(Seq<u8>, u64)>, rk: Seq<u8>)
    requires
        s.inv(),
        v == strip_key(s.index_pairs(), rk),
    ensures
        pairs_map(v) == s.index_view().remove(rk),
{
    crate::index::lemma_strip_key_map(s.index_pairs(), rk);
    s.lemma_index_is_pairs_map();
}

/// A loaded store's index is exactly the mapping a fresh full scan of its
/// untouched log rebuilds.
pub proof fn lemma_index_matches_rebuild(s: &Store)
    requires
        s.inv(),
        s.is_loaded(),
    ensures
        s.index_view() == log_index(s.log_view()),
{
}

/// Two loaded stores over the same log bytes serve the same mapping: loading
/// a fresh handle on an untouched log, with or without snapshots persisted
/// into it, reconstructs the mapping the writing session built.
pub proof fn lemma_same_log_same_service(s1: &Store, s2: &Store)
    requires
        s1.inv(),
        s1.is_loaded(),
        s2.inv(),
        s2.is_loaded(),
        s1.log_view() == s2.log_view(),
    ensures
        s1.index_view() == s2.index_view(),
        s1.contents() == s2.contents(),
{
    assert(s1.contents() =~= s2.contents());
}

} // verus!
