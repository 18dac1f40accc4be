//! The store: the public key-value API over one log and one index.
//!
//! A `KvStore` holds the full contents of the append-only command log (the
//! byte-for-byte mirror of the log file) and the in-memory index derived from
//! it. Its operations only ever append to the log; the caller that owns the
//! log file appends the same bytes there, so the file and the mirror agree.

use vstd::prelude::*;
use crate::codec::PART_LEN_BOUND;
use crate::codec::Record;
use crate::codec::RecordModel;
use crate::codec::copy_range;
use crate::codec::decode_record;
use crate::codec::encode_record;
use crate::codec::lemma_decode_canonical;
use crate::codec::push_bytes;
use crate::codec::spec_encode;
use crate::error::KvError;
use crate::index::Index;
use crate::index::ReplayMap;
use crate::index::apply_record;
use crate::index::bytes_eq;
use crate::index::lemma_replay_extend;
use crate::index::lemma_live_keys_bounded;
use crate::index::lemma_replay_ptrs_ok;
use crate::index::live_offsets;
use crate::index::live_values;
use crate::index::replay_from;
use crate::index::spec_replay;

verus! {

/// A log-structured key-value store: an append-only command log and an
/// in-memory index mapping each live key to the byte offset of its most
/// recent `Put` record.
pub struct KvStore {
    log: Vec<u8>,
    index: Index,
}

impl KvStore {
    /// The bytes of the command log.
    pub closed spec fn log_model(&self) -> Seq<u8> {
        self.log@
    }

    /// The offsets the index currently holds, keyed by live key.
    pub closed spec fn index_model(&self) -> Map<Seq<u8>, int> {
        self.index@
    }

    /// The key→value mapping the store represents: what a full replay of the
    /// log derives. Empty for a corrupt log.
    pub open spec fn model(&self) -> Map<Seq<u8>, Seq<u8>> {
        match spec_replay(self.log_model()) {
            Some(m) => live_values(m),
            None => Map::empty(),
        }
    }

    /// Well-formedness: the log replays cleanly and the index is exactly the
    /// offset half of what that replay derives.
    pub closed spec fn wf(&self) -> bool {
        &&& self.index.wf()
        &&& spec_replay(self.log@).is_some()
        &&& self.index@ == live_offsets(spec_replay(self.log@).unwrap())
    }

    /// A store over the given log bytes, with an empty index. The index must
    /// be rebuilt before a read observes it; `open` does both steps.
    pub fn new(log: Vec<u8>) -> (r: KvStore)
        ensures
            r.log_model() == log@,
            r.index_model() == Map::<Seq<u8>, int>::empty(),
    {
        KvStore { log, index: Index::new() }
    }

    /// The log bytes, byte for byte. The owner of the log file uses this to
    /// mirror appended records into the file.
    pub fn log_bytes(&self) -> (r: &Vec<u8>)
        ensures
            r@ == self.log_model(),
    {
        &self.log
    }

    /// Rebuilds the index by one full replay of the log: for each record in
    /// file order a `Put` maps its key to the record's start offset and a
    /// `Remove` deletes its key. Fails on the first undecodable record.
    pub fn make_index(&mut self) -> (r: Result<(), KvError>)
        ensures
            final(self).log_model() == old(self).log_model(),
            r.is_ok() == spec_replay(old(self).log_model()).is_some(),
            r matches Ok(u) ==> final(self).wf(),
            r matches Err(e) ==> e == KvError::CorruptionError && final(self).index_model()
                == old(self).index_model(),
    {
        let ghost bytes = self.log@;
        let mut idx = Index::new();
        let ghost mut acc: ReplayMap = Map::empty();
        let mut off: usize = 0;
        while off < self.log.len()
            invariant
                self.log@ == bytes,
                self.index@ == old(self).index_model(),
                idx.wf(),
                off <= bytes.len(),
                idx@ == live_offsets(acc),
                replay_from(bytes, 0, Map::empty()) == replay_from(bytes, off as int, acc),
            decreases bytes.len() - off,
        {
            match decode_record(&self.log, off) {
                Some((rec, end)) => {
                    let ghost recm = rec@;
                    proof {
                        lemma_decode_canonical(bytes, off as int);
                        assert(replay_from(bytes, off as int, acc) == replay_from(
                            bytes,
                            end as int,
                            apply_record(acc, recm, off as int),
                        ));
                    }
                    match rec {
                        Record::Put { key, value: _ } => {
                            idx.upsert(key, off);
                        },
                        Record::Remove { key } => {
                            idx.remove_key(&key);
                        },
                    }
                    proof {
                        acc = apply_record(acc, recm, off as int);
                        assert(idx@ =~= live_offsets(acc));
                    }
                    off = end;
                },
                None => {
                    return Err(KvError::CorruptionError);
                },
            }
        }
        self.index = idx;
        Ok(())
    }

    /// Opens a store over the given log bytes and rebuilds the index, so a
    /// fresh store answers reads exactly as the log prescribes. Returns
    /// `CorruptionError` if and only if some record of the log cannot be
    /// decoded at its framing boundary.
    pub fn open(log: Vec<u8>) -> (r: Result<KvStore, KvError>)
        ensures
            r.is_ok() == spec_replay(log@).is_some(),
            r matches Ok(st) ==> st.wf() && st.log_model() == log@,
            r matches Err(e) ==> e == KvError::CorruptionError,
    {
        let mut st = KvStore::new(log);
        match st.make_index() {
            Ok(()) => Ok(st),
            Err(e) => Err(e),
        }
    }

    /// Appends `Put(key, value)` to the log, points the index at the new
    /// record, and returns the stored value. Overwriting an existing key is
    /// no error: the last write for a key wins.
    pub fn set(&mut self, key: Vec<u8>, value: Vec<u8>) -> (r: Result<Vec<u8>, KvError>)
        requires
            old(self).wf(),
            key@.len() < PART_LEN_BOUND,
            value@.len() < PART_LEN_BOUND,
            old(self).log_model().len() + 9 + key@.len() + value@.len() <= usize::MAX,
        ensures
            final(self).wf(),
            final(self).log_model() == old(self).log_model() + spec_encode(
                RecordModel::Put { key: key@, value: value@ },
            ),
            old(self).log_model().is_prefix_of(final(self).log_model()),
            final(self).model() == old(self).model().insert(key@, value@),
            r matches Ok(v) && v@ == value@,
    {
        let ghost keyv = key@;
        let ghost valv = value@;
        let stored = copy_range(&value, 0, value.len());
        let offset = self.log.len();
        let ghost oldlog = self.log@;
        let ghost m = spec_replay(oldlog).unwrap();
        let record = Record::Put { key, value };
        let ghost recm = record@;
        let enc = encode_record(&record);
        push_bytes(&mut self.log, &enc);
        match record {
            Record::Put { key, value } => {
                self.index.upsert(key, offset);
            },
            Record::Remove { .. } => {},
        }
        proof {
            lemma_replay_extend(oldlog, 0, Map::empty(), recm);
            let m2 = apply_record(m, recm, oldlog.len() as int);
            assert(self.index@ =~= live_offsets(m2));
            assert(live_values(m2) =~= live_values(m).insert(keyv, valv));
            assert(oldlog =~= self.log@.subrange(0, oldlog.len() as int));
        }
        Ok(stored)
    }

    /// Looks the key up in the index; when it is live, reads the record at
    /// the stored offset back from the log and returns its value. A missing
    /// key is a normal negative result, not a failure; under a well-formed
    /// store the index and the log agree, so no error is ever returned.
    pub fn get(&self, key: Vec<u8>) -> (r: Result<Option<Vec<u8>>, KvError>)
        requires
            self.wf(),
        ensures
            r.is_ok(),
            self.model().contains_key(key@) ==> (r matches Ok(v) && v matches Some(b) && b@
                == self.model()[key@]),
            !self.model().contains_key(key@) ==> (r matches Ok(v) && v is None),
    {
        proof {
            lemma_replay_ptrs_ok(self.log@, 0, Map::empty());
        }
        match self.index.find(&key) {
            Some(offset) => {
                match decode_record(&self.log, offset) {
                    Some((rec, _end)) => {
                        match rec {
                            Record::Put { key: found_key, value } => {
                                if bytes_eq(&found_key, &key) {
                                    Ok(Some(value))
                                } else {
                                    Err(KvError::CorruptionError)
                                }
                            },
                            Record::Remove { .. } => Err(KvError::CorruptionError),
                        }
                    },
                    None => Err(KvError::CorruptionError),
                }
            },
            None => Ok(None),
        }
    }

    /// Tombstones a live key: appends `Remove(key)` to the log, then deletes
    /// the key from the index. The append happens first, so the log stays
    /// the source of truth. Removing an absent key returns `NotFound`, again
    /// and again: the negative result is idempotent.
    pub fn remove(&mut self, key: Vec<u8>) -> (r: Result<(), KvError>)
        requires
            old(self).wf(),
            old(self).log_model().len() + 5 + key@.len() <= usize::MAX,
        ensures
            final(self).wf(),
            old(self).log_model().is_prefix_of(final(self).log_model()),
            r.is_ok() == old(self).model().contains_key(key@),
            r matches Ok(u) ==> final(self).log_model() == old(self).log_model() + spec_encode(
                RecordModel::Remove { key: key@ },
            ) && final(self).model() == old(self).model().remove(key@),
            r matches Err(e) ==> e == KvError::NotFound && final(self).log_model() == old(
                self,
            ).log_model() && final(self).model() == old(self).model(),
    {
        if key.len() as u64 >= PART_LEN_BOUND {
            // A key this long fits no frame, so no record ever put it in the
            // log: it is absent, the same negative result as any missing key.
            proof {
                if self.model().contains_key(key@) {
                    lemma_live_keys_bounded(self.log@, key@);
                }
            }
            return Err(KvError::NotFound);
        }
        match self.index.find(&key) {
            Some(offset) => {
                let ghost keyv = key@;
                let ghost oldlog = self.log@;
                let ghost m = spec_replay(oldlog).unwrap();
                let record = Record::Remove { key };
                let ghost recm = record@;
                let enc = encode_record(&record);
                push_bytes(&mut self.log, &enc);
                match record {
                    Record::Remove { key } => {
                        self.index.remove_key(&key);
                    },
                    Record::Put { .. } => {},
                }
                proof {
                    lemma_replay_extend(oldlog, 0, Map::empty(), recm);
                    let m2 = apply_record(m, recm, oldlog.len() as int);
                    assert(self.index@ =~= live_offsets(m2));
                    assert(live_values(m2) =~= live_values(m).remove(keyv));
                    assert(oldlog =~= self.log@.subrange(0, oldlog.len() as int));
                }
                Ok(())
            },
            None => Err(KvError::NotFound),
        }
    }
}

/// Round-trip law: a store left by `set(key, value)` answers `get(key)` with
/// exactly `value`, bit for bit.
pub proof fn lemma_set_then_get(pre: KvStore, post: KvStore, key: Seq<u8>, value: Seq<u8>)
    requires
        post.model() == pre.model().insert(key, value),
    ensures
        post.model().contains_key(key),
        post.model()[key] == value,
{
}

/// Last-write-wins law: after `set(key, v1)` then `set(key, v2)`, a `get` of
/// the key answers `v2`.
pub proof fn lemma_last_write_wins(
    s0: KvStore,
    s1: KvStore,
    s2: KvStore,
    key: Seq<u8>,
    v1: Seq<u8>,
    v2: Seq<u8>,
)
    requires
        s1.model() == s0.model().insert(key, v1),
        s2.model() == s1.model().insert(key, v2),
    ensures
        s2.model().contains_key(key),
        s2.model()[key] == v2,
{
}

/// Tombstone law: after `set(key, value)` then `remove(key)` the key is dead,
/// so a `get` answers nothing and a second `remove` reports `NotFound`.
pub proof fn lemma_tombstone(s0: KvStore, s1: KvStore, s2: KvStore, key: Seq<u8>, value: Seq<u8>)
    requires
        s1.model() == s0.model().insert(key, value),
        s2.model() == s1.model().remove(key),
    ensures
        !s2.model().contains_key(key),
{
}

/// Replay-equivalence law: two stores over the same log bytes represent the
/// same mapping, so reopening a store against its log answers every `get` as
/// the store it replaced did. The index rebuild is faithful to the log.
pub proof fn lemma_replay_equivalence(a: KvStore, b: KvStore)
    requires
        a.log_model() == b.log_model(),
    ensures
        a.model() == b.model(),
{
}

} // verus!
