//! Replay semantics of the log, and the in-memory index derived from it.
//!
//! Replaying a log walks its records in file order and keeps, for each live
//! key, the offset and value of that key's most recent `Put` record; a
//! `Remove` tombstone deletes the key. The index is the executable mirror of
//! the offset half of that map, rebuilt from the log whenever needed.

use vstd::prelude::*;
use vstd::pervasive::VecAdditionalExecFns;
use crate::codec::RecordModel;
use crate::codec::spec_decode;
use crate::codec::spec_encode;
use crate::codec::wf_record;
use crate::codec::lemma_decode_canonical;
use crate::codec::lemma_decode_encode;
use crate::codec::lemma_decode_extend;

verus! {

/// What a full replay derives: each live key mapped to the byte offset of its
/// latest `Put` record and to the value that record carries.
pub type ReplayMap = Map<Seq<u8>, (int, Seq<u8>)>;

/// One replay step: a `Put` inserts or overwrites the key with the record's
/// offset and value; a `Remove` deletes the key (a no-op when it is absent).
pub open spec fn apply_record(m: ReplayMap, r: RecordModel, off: int) -> ReplayMap {
    match r {
        RecordModel::Put { key, value } => m.insert(key, (off, value)),
        RecordModel::Remove { key } => m.remove(key),
    }
}

/// Replays the log from `off`, folding each record into `acc`. `None` when a
/// record cannot be decoded at a framing boundary.
pub open spec fn replay_from(bytes: Seq<u8>, off: int, acc: ReplayMap) -> Option<ReplayMap>
    decreases bytes.len() - off,
{
    if off == bytes.len() {
        Some(acc)
    } else if 0 <= off < bytes.len() {
        match spec_decode(bytes, off) {
            Some((r, end)) => if off < end <= bytes.len() {
                replay_from(bytes, end, apply_record(acc, r, off))
            } else {
                None
            },
            None => None,
        }
    } else {
        None
    }
}

/// The map a full replay of the log derives, or `None` for a corrupt log.
pub open spec fn spec_replay(bytes: Seq<u8>) -> Option<ReplayMap> {
    replay_from(bytes, 0, Map::empty())
}

/// The value half of a replay map: each live key's current value.
pub open spec fn live_values(m: ReplayMap) -> Map<Seq<u8>, Seq<u8>> {
    Map::new(|k: Seq<u8>| m.contains_key(k), |k: Seq<u8>| m[k].1)
}

/// The offset half of a replay map: each live key's latest `Put` offset.
pub open spec fn live_offsets(m: ReplayMap) -> Map<Seq<u8>, int> {
    Map::new(|k: Seq<u8>| m.contains_key(k), |k: Seq<u8>| m[k].0)
}

/// Every entry of the map decodes, at its stored offset, to a `Put` record of
/// exactly that key and value.
pub open spec fn ptrs_ok(bytes: Seq<u8>, m: ReplayMap) -> bool {
    forall|k: Seq<u8>| #[trigger]
        m.contains_key(k) ==> {
            let d = spec_decode(bytes, m[k].0);
            d.is_some() && d.unwrap().0 == (RecordModel::Put { key: k, value: m[k].1 })
        }
}

/// Replay preserves `ptrs_ok`: each insertion points at the `Put` record that
/// produced it, so the derived index always agrees with the log.
pub proof fn lemma_replay_ptrs_ok(bytes: Seq<u8>, off: int, acc: ReplayMap)
    requires
        replay_from(bytes, off, acc).is_some(),
        ptrs_ok(bytes, acc),
    ensures
        ptrs_ok(bytes, replay_from(bytes, off, acc).unwrap()),
    decreases bytes.len() - off,
{
    if off == bytes.len() {
    } else {
        let (r, end) = spec_decode(bytes, off).unwrap();
        let acc2 = apply_record(acc, r, off);
        assert(ptrs_ok(bytes, acc2)) by {
            match r {
                RecordModel::Put { key, value } => {
                    assert(forall|k: Seq<u8>| #[trigger]
                        acc2.contains_key(k) && k != key ==> acc.contains_key(k)
                            && acc2[k] == acc[k]);
                },
                RecordModel::Remove { key } => {
                    assert(forall|k: Seq<u8>| #[trigger]
                        acc2.contains_key(k) ==> acc.contains_key(k) && acc2[k] == acc[k]);
                },
            }
        }
        lemma_replay_ptrs_ok(bytes, end, acc2);
    }
}

/// Every key a clean replay leaves live came out of a decoded frame, so it
/// fits the frame's 4-byte length prefix.
pub proof fn lemma_live_keys_bounded(bytes: Seq<u8>, k: Seq<u8>)
    requires
        spec_replay(bytes).is_some(),
        spec_replay(bytes).unwrap().contains_key(k),
    ensures
        k.len() < crate::codec::PART_LEN_BOUND,
{
    lemma_replay_ptrs_ok(bytes, 0, Map::empty());
    let m = spec_replay(bytes).unwrap();
    lemma_decode_canonical(bytes, m[k].0);
}

/// Appending one well-formed record to the log advances the replay result by
/// exactly one `apply_record` step at the old end-of-log offset.
pub proof fn lemma_replay_extend(bytes: Seq<u8>, off: int, acc: ReplayMap, r2: RecordModel)
    requires
        wf_record(r2),
        replay_from(bytes, off, acc).is_some(),
    ensures
        replay_from(bytes + spec_encode(r2), off, acc) == Some(
            apply_record(replay_from(bytes, off, acc).unwrap(), r2, bytes.len() as int),
        ),
    decreases bytes.len() - off,
{
    let bytes2 = bytes + spec_encode(r2);
    if off == bytes.len() {
        assert(bytes2 =~= bytes.subrange(0, off) + spec_encode(r2) + Seq::<u8>::empty());
        lemma_decode_encode(bytes.subrange(0, off), r2, Seq::empty());
        let end = off + spec_encode(r2).len() as int;
        assert(spec_decode(bytes2, off) == Some((r2, end)));
        lemma_decode_canonical(bytes2, off);
        assert(end == bytes2.len());
        assert(replay_from(bytes2, off, acc) == replay_from(
            bytes2,
            end,
            apply_record(acc, r2, off),
        ));
    } else {
        let (r, end) = spec_decode(bytes, off).unwrap();
        lemma_decode_extend(bytes, off, spec_encode(r2));
        lemma_replay_extend(bytes, end, apply_record(acc, r, off), r2);
    }
}

/// Compares two byte vectors for equality of contents.
pub fn bytes_eq(a: &Vec<u8>, b: &Vec<u8>) -> (r: bool)
    ensures
        r == (a@ == b@),
{
    if a.len() != b.len() {
        return false;
    }
    let mut i: usize = 0;
    while i < a.len()
        invariant
            a@.len() == b@.len(),
            i <= a@.len(),
            forall|j: int| 0 <= j < i ==> a@[j] == b@[j],
        decreases a@.len() - i,
    {
        if a[i] != b[i] {
            return false;
        }
        i = i + 1;
    }
    proof {
        assert(a@ =~= b@);
    }
    true
}

/// The map an association vector denotes: later entries win, though the
/// index keeps its keys unique.
pub open spec fn index_map_of(s: Seq<(Vec<u8>, usize)>) -> Map<Seq<u8>, int>
    decreases s.len(),
{
    if s.len() == 0 {
        Map::empty()
    } else {
        index_map_of(s.drop_last()).insert(s.last().0@, s.last().1 as int)
    }
}

/// No two entries of the vector carry the same key.
pub open spec fn unique_keys(s: Seq<(Vec<u8>, usize)>) -> bool {
    forall|i: int, j: int| #![trigger s[i], s[j]] 0 <= i < j < s.len() ==> s[i].0@ != s[j].0@
}

proof fn lemma_index_map_absent(s: Seq<(Vec<u8>, usize)>, k: Seq<u8>)
    requires
        forall|i: int| 0 <= i < s.len() ==> (#[trigger] s[i]).0@ != k,
    ensures
        !index_map_of(s).contains_key(k),
    decreases s.len(),
{
    if s.len() > 0 {
        lemma_index_map_absent(s.drop_last(), k);
    }
}

proof fn lemma_index_map_entry(s: Seq<(Vec<u8>, usize)>, i: int)
    requires
        unique_keys(s),
        0 <= i < s.len(),
    ensures
        index_map_of(s).contains_key(s[i].0@),
        index_map_of(s)[s[i].0@] == s[i].1 as int,
    decreases s.len(),
{
    if i < s.len() - 1 {
        assert(unique_keys(s.drop_last()));
        lemma_index_map_entry(s.drop_last(), i);
        assert(s.last().0@ != s[i].0@);
    }
}

proof fn lemma_index_map_update(s: Seq<(Vec<u8>, usize)>, i: int, key: Vec<u8>, off: usize)
    requires
        unique_keys(s),
        0 <= i < s.len(),
        s[i].0@ == key@,
    ensures
        index_map_of(s.update(i, (key, off))) == index_map_of(s).insert(key@, off as int),
        unique_keys(s.update(i, (key, off))),
    decreases s.len(),
{
    let s2 = s.update(i, (key, off));
    if i == s.len() - 1 {
        assert(s2.drop_last() =~= s.drop_last());
        assert(index_map_of(s2) =~= index_map_of(s).insert(key@, off as int));
    } else {
        assert(unique_keys(s.drop_last()));
        lemma_index_map_update(s.drop_last(), i, key, off);
        assert(s2.drop_last() =~= s.drop_last().update(i, (key, off)));
        assert(s.last().0@ != key@);
        assert(index_map_of(s2) =~= index_map_of(s).insert(key@, off as int));
    }
}

proof fn lemma_index_map_push(s: Seq<(Vec<u8>, usize)>, key: Vec<u8>, off: usize)
    requires
        unique_keys(s),
        forall|i: int| 0 <= i < s.len() ==> (#[trigger] s[i]).0@ != key@,
    ensures
        index_map_of(s.push((key, off))) == index_map_of(s).insert(key@, off as int),
        unique_keys(s.push((key, off))),
{
    assert(s.push((key, off)).drop_last() =~= s);
}

proof fn lemma_index_map_remove(s: Seq<(Vec<u8>, usize)>, i: int)
    requires
        unique_keys(s),
        0 <= i < s.len(),
    ensures
        index_map_of(s.remove(i)) == index_map_of(s).remove(s[i].0@),
        unique_keys(s.remove(i)),
    decreases s.len(),
{
    let k = s[i].0@;
    if i == s.len() - 1 {
        assert(s.remove(i) =~= s.drop_last());
        lemma_index_map_absent(s.drop_last(), k);
        assert(index_map_of(s.drop_last()) =~= index_map_of(s).remove(k));
    } else {
        assert(unique_keys(s.drop_last()));
        lemma_index_map_remove(s.drop_last(), i);
        assert(s.remove(i).drop_last() =~= s.drop_last().remove(i));
        assert(s.remove(i).last() == s.last());
        assert(s.last().0@ != k);
        assert(index_map_of(s.remove(i)) =~= index_map_of(s).remove(k));
    }
}

/// The in-memory index: ephemeral, rebuildable state mapping each live key to
/// the byte offset of its latest `Put` record in the log.
pub struct Index {
    entries: Vec<(Vec<u8>, usize)>,
}

impl View for Index {
    type V = Map<Seq<u8>, int>;

    closed spec fn view(&self) -> Map<Seq<u8>, int> {
        index_map_of(self.entries@)
    }
}

impl Index {
    /// Internal shape: no key occurs twice.
    pub closed spec fn wf(&self) -> bool {
        unique_keys(self.entries@)
    }

    /// An empty index.
    pub fn new() -> (r: Index)
        ensures
            r.wf(),
            r@ == Map::<Seq<u8>, int>::empty(),
    {
        Index { entries: Vec::new() }
    }

    /// Looks the key up, returning its stored offset when it is live.
    pub fn find(&self, key: &Vec<u8>) -> (r: Option<usize>)
        requires
            self.wf(),
        ensures
            match r {
                Some(off) => self@.contains_key(key@) && self@[key@] == off as int,
                None => !self@.contains_key(key@),
            },
    {
        let mut i: usize = 0;
        while i < self.entries.len()
            invariant
                self.wf(),
                i <= self.entries@.len(),
                forall|j: int| 0 <= j < i ==> (#[trigger] self.entries@[j]).0@ != key@,
            decreases self.entries@.len() - i,
        {
            if bytes_eq(&self.entries[i].0, key) {
                proof {
                    lemma_index_map_entry(self.entries@, i as int);
                }
                return Some(self.entries[i].1);
            }
            i = i + 1;
        }
        proof {
            lemma_index_map_absent(self.entries@, key@);
        }
        None
    }

    /// Inserts the key at the given offset, overwriting any earlier entry.
    pub fn upsert(&mut self, key: Vec<u8>, off: usize)
        requires
            old(self).wf(),
        ensures
            final(self).wf(),
            final(self)@ == old(self)@.insert(key@, off as int),
    {
        let mut i: usize = 0;
        while i < self.entries.len()
            invariant
                self.wf(),
                self.entries@ == old(self).entries@,
                i <= self.entries@.len(),
                forall|j: int| 0 <= j < i ==> (#[trigger] self.entries@[j]).0@ != key@,
            decreases self.entries@.len() - i,
        {
            if bytes_eq(&self.entries[i].0, &key) {
                proof {
                    lemma_index_map_update(self.entries@, i as int, key, off);
                }
                self.entries.set(i, (key, off));
                return;
            }
            i = i + 1;
        }
        proof {
            lemma_index_map_push(self.entries@, key, off);
        }
        self.entries.push((key, off));
    }

    /// Deletes the key if present; reports whether it was.
    pub fn remove_key(&mut self, key: &Vec<u8>) -> (found: bool)
        requires
            old(self).wf(),
        ensures
            final(self).wf(),
            final(self)@ == old(self)@.remove(key@),
            found == old(self)@.contains_key(key@),
    {
        let mut i: usize = 0;
        while i < self.entries.len()
            invariant
                self.wf(),
                self.entries@ == old(self).entries@,
                i <= self.entries@.len(),
                forall|j: int| 0 <= j < i ==> (#[trigger] self.entries@[j]).0@ != key@,
            decreases self.entries@.len() - i,
        {
            if bytes_eq(&self.entries[i].0, key) {
                proof {
                    lemma_index_map_entry(self.entries@, i as int);
                    lemma_index_map_remove(self.entries@, i as int);
                }
                self.entries.remove(i);
                return true;
            }
            i = i + 1;
        }
        proof {
            lemma_index_map_absent(self.entries@, key@);
            assert(old(self)@.remove(key@) =~= old(self)@);
        }
        false
    }
}

} // verus!
