//! The in-memory index: key bytes to the offset of the key's latest record.
//!
//! The index is a list of key/offset pairs with pairwise-distinct keys, read
//! through its `Map` view. Only the mapping matters to callers; the pair
//! order is kept private, except that a snapshot serializes the pairs in
//! list order, which `strip_key` describes.

use vstd::prelude::*;
use vstd::slice::slice_to_vec;

verus! {

/// The spec-level pairs of an executable pair list.
pub open spec fn pair_views(s: Seq<(Vec<u8>, u64)>) -> Seq<(Seq<u8>, u64)> {
    s.map_values(|p: (Vec<u8>, u64)| (p.0@, p.1))
}

/// No two pairs share a key.
pub open spec fn keys_unique(s: Seq<(Seq<u8>, u64)>) -> bool {
    forall|i: int, j: int| 0 <= i < j < s.len() ==> s[i].0 != s[j].0
}

/// The mapping a pair list denotes; a later pair for a key wins.
pub open spec fn pairs_map(s: Seq<(Seq<u8>, u64)>) -> Map<Seq<u8>, u64>
    decreases s.len(),
{
    if s.len() == 0 {
        Map::empty()
    } else {
        pairs_map(s.drop_last()).insert(s.last().0, s.last().1)
    }
}

/// The pair list with every pair for key `k` dropped, order kept.
pub open spec fn strip_key(s: Seq<(Seq<u8>, u64)>, k: Seq<u8>) -> Seq<(Seq<u8>, u64)>
    decreases s.len(),
{
    if s.len() == 0 {
        s
    } else {
        let r = strip_key(s.drop_last(), k);
        if s.last().0 == k {
            r
        } else {
            r.push(s.last())
        }
    }
}

/// A key is in the mapping exactly when some pair holds it.
pub proof fn lemma_pairs_map_contains(s: Seq<(Seq<u8>, u64)>, k: Seq<u8>)
    ensures
        pairs_map(s).contains_key(k) <==> exists|i: int| 0 <= i < s.len() && s[i].0 == k,
    decreases s.len(),
{
    if s.len() > 0 {
        lemma_pairs_map_contains(s.drop_last(), k);
        if s.last().0 == k {
            assert(s[s.len() - 1].0 == k);
        } else {
            if pairs_map(s).contains_key(k) {
                let i = choose|i: int| 0 <= i < s.drop_last().len() && s.drop_last()[i].0 == k;
                assert(s[i].0 == k);
            }
            if exists|i: int| 0 <= i < s.len() && s[i].0 == k {
                let i = choose|i: int| 0 <= i < s.len() && s[i].0 == k;
                assert(i < s.len() - 1);
                assert(s.drop_last()[i].0 == k);
            }
        }
    }
}

/// Under unique keys, the pair at any position gives the mapping's value.
pub proof fn lemma_pairs_map_entry(s: Seq<(Seq<u8>, u64)>, i: int)
    requires
        keys_unique(s),
        0 <= i < s.len(),
    ensures
        pairs_map(s).contains_key(s[i].0),
        pairs_map(s)[s[i].0] == s[i].1,
    decreases s.len(),
{
    if i < s.len() - 1 {
        assert(keys_unique(s.drop_last()));
        lemma_pairs_map_entry(s.drop_last(), i);
        assert(s.drop_last()[i] == s[i]);
        assert(s.last().0 != s[i].0);
    }
}

/// Under unique keys, removing the pair at a position removes its key from
/// the mapping.
proof fn lemma_pairs_map_remove(s: Seq<(Seq<u8>, u64)>, i: int)
    requires
        keys_unique(s),
        0 <= i < s.len(),
    ensures
        keys_unique(s.remove(i)),
        pairs_map(s.remove(i)) == pairs_map(s).remove(s[i].0),
    decreases s.len(),
{
    let k = s[i].0;
    if i == s.len() - 1 {
        assert(s.remove(i) =~= s.drop_last());
        lemma_pairs_map_contains(s.drop_last(), k);
        assert(!pairs_map(s.drop_last()).contains_key(k));
        assert(pairs_map(s.drop_last()) =~= pairs_map(s).remove(k));
    } else {
        assert(keys_unique(s.drop_last()));
        lemma_pairs_map_remove(s.drop_last(), i);
        assert(s.remove(i).drop_last() =~= s.drop_last().remove(i));
        assert(s.remove(i).last() == s.last());
        assert(s.remove(i).len() == s.len() - 1);
        assert(pairs_map(s.remove(i)) == pairs_map(s.drop_last().remove(i)).insert(
            s.last().0,
            s.last().1,
        ));
        assert(s.last().0 != k);
        assert(pairs_map(s.drop_last()).remove(k).insert(s.last().0, s.last().1) =~= pairs_map(
            s.drop_last(),
        ).insert(s.last().0, s.last().1).remove(k));
        assert(keys_unique(s.remove(i))) by {
            assert(forall|a: int, b: int|
                0 <= a < b < s.remove(i).len() ==> s.remove(i)[a].0 != s.remove(i)[b].0);
        }
    }
}

/// Dropping every pair for a key removes exactly that key from the mapping.
pub proof fn lemma_strip_key_map(s: Seq<(Seq<u8>, u64)>, k: Seq<u8>)
    ensures
        pairs_map(strip_key(s, k)) == pairs_map(s).remove(k),
    decreases s.len(),
{
    if s.len() == 0 {
        assert(pairs_map(strip_key(s, k)) =~= pairs_map(s).remove(k));
    } else {
        lemma_strip_key_map(s.drop_last(), k);
        let r = strip_key(s.drop_last(), k);
        if s.last().0 == k {
            assert(pairs_map(s).remove(k) =~= pairs_map(s.drop_last()).remove(k));
        } else {
            assert(r.push(s.last()).drop_last() =~= r);
            assert(pairs_map(r.push(s.last())) == pairs_map(r).insert(s.last().0, s.last().1));
            assert(pairs_map(s.drop_last()).remove(k).insert(s.last().0, s.last().1)
                =~= pairs_map(s.drop_last()).insert(s.last().0, s.last().1).remove(k));
        }
    }
}

/// Whether two byte slices hold the same bytes.
pub fn bytes_eq(a: &[u8], b: &[u8]) -> (r: bool)
    ensures
        r == (a@ == b@),
{
    if a.len() != b.len() {
        return false;
    }
    let mut i: usize = 0;
    while i < a.len()
        invariant
            a@.len() == b@.len(),
            0 <= i <= a@.len(),
            forall|j: int| 0 <= j < i ==> a@[j] == b@[j],
        decreases a@.len() - i,
    {
        if a[i] != b[i] {
            return false;
        }
        i = i + 1;
    }
    proof {
        assert(a@ =~= b@);
    }
    true
}

/// The in-memory index from key bytes to the offset of the key's latest
/// record.
pub struct Index {
    pairs: Vec<(Vec<u8>, u64)>,
}

impl View for Index {
    type V = Map<Seq<u8>, u64>;

    closed spec fn view(&self) -> Map<Seq<u8>, u64> {
        pairs_map(pair_views(self.pairs@))
    }
}

impl Index {
    /// The pair list behind the mapping, in list order; it only matters to
    /// the snapshot contract.
    pub closed spec fn seq_view(&self) -> Seq<(Seq<u8>, u64)> {
        pair_views(self.pairs@)
    }

    /// The mapping is the pair list's mapping.
    pub proof fn lemma_view_is_seq_view(&self)
        ensures
            self@ == pairs_map(self.seq_view()),
    {
    }

    /// The keys of the pair list are pairwise distinct.
    pub open spec fn wf(&self) -> bool {
        keys_unique(self.seq_view())
    }

    /// An empty index.
    pub fn new() -> (r: Index)
        ensures
            r.wf(),
            r@ == Map::<Seq<u8>, u64>::empty(),
            r.seq_view() == Seq::<(Seq<u8>, u64)>::empty(),
    {
        let r = Index { pairs: Vec::new() };
        proof {
            assert(r.seq_view() =~= Seq::<(Seq<u8>, u64)>::empty());
        }
        r
    }

    /// The position of the pair holding `key`, if any.
    fn find(&self, key: &[u8]) -> (r: Option<usize>)
        ensures
            match r {
                Some(i) => 0 <= i < self.seq_view().len() && self.seq_view()[i as int].0 == key@,
                None => forall|i: int| 0 <= i < self.seq_view().len() ==> self.seq_view()[i].0
                    != key@,
            },
    {
        let mut i: usize = 0;
        while i < self.pairs.len()
            invariant
                0 <= i <= self.pairs@.len(),
                forall|j: int| 0 <= j < i ==> self.seq_view()[j].0 != key@,
            decreases self.pairs@.len() - i,
        {
            if bytes_eq(self.pairs[i].0.as_slice(), key) {
                assert(self.seq_view()[i as int].0 == key@);
                return Some(i);
            }
            i = i + 1;
        }
        None
    }

    /// The offset stored for `key`, if the key is in the mapping.
    pub fn get(&self, key: &[u8]) -> (r: Option<u64>)
        requires
            self.wf(),
        ensures
            r == if self@.contains_key(key@) {
                Some(self@[key@])
            } else {
                None::<u64>
            },
    {
        match self.find(key) {
            Some(i) => {
                proof {
                    lemma_pairs_map_entry(self.seq_view(), i as int);
                }
                Some(self.pairs[i].1)
            },
            None => {
                proof {
                    lemma_pairs_map_contains(self.seq_view(), key@);
                }
                None
            },
        }
    }

    /// Removes `key` from the mapping; absent keys are left alone.
    pub fn remove_key(&mut self, key: &[u8])
        requires
            old(self).wf(),
        ensures
            final(self).wf(),
            final(self)@ == old(self)@.remove(key@),
            forall|i: int| 0 <= i < final(self).seq_view().len() ==> final(self).seq_view()[i].0
                != key@,
    {
        match self.find(key) {
            Some(i) => {
                proof {
                    lemma_pairs_map_remove(self.seq_view(), i as int);
                    assert(pair_views(self.pairs@.remove(i as int)) =~= pair_views(
                        self.pairs@,
                    ).remove(i as int));
                }
                let ghost pre = self.seq_view();
                self.pairs.remove(i);
                proof {
                    assert(self.seq_view() == pre.remove(i as int));
                    assert(forall|j: int|
                        0 <= j < self.seq_view().len() ==> self.seq_view()[j].0 != key@) by {
                        lemma_pairs_map_contains(self.seq_view(), key@);
                    }
                }
            },
            None => {
                proof {
                    lemma_pairs_map_contains(self.seq_view(), key@);
                    assert(self@.remove(key@) =~= self@);
                }
            },
        }
    }

    /// Sets the mapping of `key` to `off`, replacing any earlier entry.
    pub fn set(&mut self, key: &[u8], off: u64)
        requires
            old(self).wf(),
        ensures
            final(self).wf(),
            final(self)@ == old(self)@.insert(key@, off),
    {
        self.remove_key(key);
        let ghost mid = self.seq_view();
        let kv = slice_to_vec(key);
        self.pairs.push((kv, off));
        proof {
            assert(self.seq_view() =~= mid.push((key@, off)));
            assert(self.seq_view().drop_last() =~= mid);
            assert(self@ == pairs_map(mid).insert(key@, off));
            assert(old(self)@.remove(key@).insert(key@, off) =~= old(self)@.insert(key@, off));
        }
    }

    /// A copy of the pair list with every pair for `except` dropped, in list
    /// order: the pairs a snapshot serializes.
    pub fn entries_except(&self, except: &[u8]) -> (r: Vec<(Vec<u8>, u64)>)
        ensures
            pair_views(r@) == strip_key(self.seq_view(), except@),
    {
        let mut out: Vec<(Vec<u8>, u64)> = Vec::new();
        proof {
            assert(pair_views(out@) =~= strip_key(self.seq_view().subrange(0, 0), except@));
        }
        let mut i: usize = 0;
        while i < self.pairs.len()
            invariant
                0 <= i <= self.pairs@.len(),
                pair_views(out@) == strip_key(self.seq_view().subrange(0, i as int), except@),
            decreases self.pairs@.len() - i,
        {
            let ghost pre = pair_views(out@);
            let ghost prefix = self.seq_view().subrange(0, i as int);
            proof {
                assert(self.seq_view().subrange(0, i + 1) =~= prefix.push(
                    self.seq_view()[i as int]));
                assert(self.seq_view().subrange(0, i + 1).drop_last() =~= prefix);
            }
            if !bytes_eq(self.pairs[i].0.as_slice(), except) {
                let kv = slice_to_vec(self.pairs[i].0.as_slice());
                let off = self.pairs[i].1;
                out.push((kv, off));
                proof {
                    assert(pair_views(out@) =~= pre.push((kv@, off)));
                    assert(self.seq_view()[i as int] == (kv@, off));
                }
            }
            i = i + 1;
        }
        proof {
            assert(self.seq_view().subrange(0, self.seq_view().len() as int) =~= self.seq_view());
        }
        out
    }
}

} // verus!
