//! The engines behind the store and the interface they share.
use vstd::prelude::*;

use crate::error::{KvsError, Result};

mod kvs;
mod sled;

pub use self::kvs::{
    all_within, appended_to, apply_all, byte_len, within_limits, check_length, lemma_compacted_size, lemma_compaction_idempotent,
    lemma_remove_twice, lemma_reopen, lemma_store_invariants, lemma_value_persists, live_sum, put_records, record_key,
    replay, CommandPos, IndexEntry, KvStore, MAX_KEY_LEN, MAX_VALUE_LEN, REDUNDANCE_THRESHOLD,
};
pub use self::sled::{decoded_keys, keys_to_strings, sled_contents, string_map, SledKvsEngine};

verus! {

/// The operations that every engine offers, over the map it stores.
///
/// An engine whose calls never fail on their own account (no I/O between
/// it and the map) is *reliable*: its calls then fail exactly on the inputs
/// it does not admit. Other engines may fail any call, and a failed call
/// says nothing of the map.
pub trait KvsEngine: Sized {
    /// The map from keys to values that the engine stores.
    spec fn contents(&self) -> Map<Seq<char>, Seq<char>>;

    /// The engine's invariant.
    spec fn well_formed(&self) -> bool;

    /// Whether the engine's calls can fail only on the inputs it refuses.
    spec fn reliable(&self) -> bool;

    /// Whether the engine stores `value` under `key` at all (size limits).
    spec fn admits(&self, key: Seq<char>, value: Seq<char>) -> bool;

    /// Stores `value` under `key`.
    fn set(&mut self, key: String, value: String) -> (r: Result<()>)
        requires
            old(self).well_formed(),
        ensures
            final(self).well_formed(),
            final(self).reliable() == old(self).reliable(),
            r is Ok ==> final(self).contents() == old(self).contents().insert(key@, value@),
            old(self).reliable() ==> (r is Ok <==> old(self).admits(key@, value@)),
            old(self).reliable() && r is Err ==> final(self).contents() == old(self).contents(),
            old(self).reliable() ==> (r matches Err(e) ==> !e.has_cause()),
    ;

    /// The value stored under `key`, if any.
    fn get(&self, key: String) -> (r: Result<Option<String>>)
        requires
            self.well_formed(),
        ensures
            self.reliable() ==> r is Ok,
            r matches Ok(o) ==> (o is Some <==> self.contents().contains_key(key@)),
            r matches Ok(Some(v)) ==> v@ == self.contents()[key@],
    ;

    /// Removes `key` and its value; fails with `KeyNotFound` when nothing is
    /// stored under `key`.
    fn remove(&mut self, key: String) -> (r: Result<()>)
        requires
            old(self).well_formed(),
        ensures
            final(self).well_formed(),
            final(self).reliable() == old(self).reliable(),
            r is Ok ==> old(self).contents().contains_key(key@) && final(self).contents() == old(
                self,
            ).contents().remove(key@),
            !old(self).contents().contains_key(key@) ==> r is Err,
            r matches Err(KvsError::KeyNotFound) ==> final(self).contents() == old(
                self,
            ).contents(),
            old(self).reliable() ==> (r is Ok <==> old(self).contents().contains_key(key@)),
            old(self).reliable() && r is Err ==> (r matches Err(KvsError::KeyNotFound)),
    ;

    /// Stored keys, each at most once; all of them for a reliable engine.
    fn scan(&self) -> (r: Vec<String>)
        requires
            self.well_formed(),
        ensures
            forall|i: int| 0 <= i < r@.len() ==> self.contents().contains_key(#[trigger] r@[i]@),
            forall|i: int, j: int| 0 <= i < j < r@.len() ==> r@[i]@ != r@[j]@,
            self.reliable() ==> forall|k: Seq<char>|
                self.contents().contains_key(k) ==> exists|i: int|
                    0 <= i < r@.len() && #[trigger] r@[i]@ == k,
    ;

    /// Writes what the engine keeps to speed up its next open; the engines
    /// here keep nothing of the kind, so this does nothing.
    fn save_index_log(&self) -> (r: Result<()>)
        ensures
            r is Ok,
    {
        Ok(())
    }
}

impl KvsEngine for KvStore {
    open spec fn contents(&self) -> Map<Seq<char>, Seq<char>> {
        KvStore::contents(self)
    }

    open spec fn well_formed(&self) -> bool {
        self.wf()
    }

    open spec fn reliable(&self) -> bool {
        true
    }

    open spec fn admits(&self, key: Seq<char>, value: Seq<char>) -> bool {
        byte_len(key) <= MAX_KEY_LEN && byte_len(value) <= MAX_VALUE_LEN
    }

    fn set(&mut self, key: String, value: String) -> (r: Result<()>) {
        KvStore::set(self, key, value)
    }

    fn get(&self, key: String) -> (r: Result<Option<String>>) {
        KvStore::get(self, key)
    }

    fn remove(&mut self, key: String) -> (r: Result<()>) {
        KvStore::remove(self, key)
    }

    fn scan(&self) -> (r: Vec<String>) {
        let r = KvStore::scan(self);
        assert forall|i: int| 0 <= i < r@.len() implies self.contents().contains_key(
            #[trigger] r@[i]@,
        ) by {
            let k = r@[i]@;
            assert(0 <= i < r@.len() && r@[i]@ == k);
        }
        r
    }
}

} // verus!
