//! The log-structured engine.
use vstd::prelude::*;
use vstd::utf8::*;

use crate::codec::{
    str_eq, decode_at, encode, encode_record, lemma_log_prefix, lemma_parse_encoded, lemma_parse_log_of,
    lemma_subrange_tail, log_of, parse_log, parse_log_from, Command, RecordView,
};
use crate::error::{KvsError, Result};

verus! {

/// Superseded bytes in the log that start a compaction (1 MiB).
pub const REDUNDANCE_THRESHOLD: u64 = 1048576;

/// The largest key, in bytes.
pub const MAX_KEY_LEN: usize = 256;

/// The largest value, in bytes.
pub const MAX_VALUE_LEN: usize = 4096;

/// The byte range of one record in the log.
#[derive(Clone, Copy, Debug)]
pub struct CommandPos {
    pub pos: usize,
    pub len: usize,
}

/// One key of the index and the range of its latest `Set` record.
pub struct IndexEntry {
    pub key: String,
    pub pos: CommandPos,
}

/// The map that the records `rs` leave when applied in order.
pub open spec fn replay(rs: Seq<RecordView>) -> Map<Seq<char>, Seq<char>>
    decreases rs.len(),
{
    if rs.len() == 0 {
        Map::empty()
    } else {
        match rs.last() {
            RecordView::Put { key, value } => replay(rs.drop_last()).insert(key, value),
            RecordView::Rm { key } => replay(rs.drop_last()).remove(key),
        }
    }
}

/// The `Set` records of the keys `ks`, in that order, with their values in `m`.
pub open spec fn put_records(ks: Seq<Seq<char>>, m: Map<Seq<char>, Seq<char>>) -> Seq<
    RecordView,
> {
    ks.map_values(|k: Seq<char>| RecordView::Put { key: k, value: m[k] })
}

/// The sum of the lengths of the ranges of `idx`.
pub open spec fn live_sum(idx: Seq<IndexEntry>) -> nat
    decreases idx.len(),
{
    if idx.len() == 0 {
        0
    } else {
        live_sum(idx.drop_last()) + idx.last().pos.len as nat
    }
}

/// Whether `new` is `old` with bytes appended: the log grows this way
/// between compactions.
pub open spec fn appended_to(new: Seq<u8>, old: Seq<u8>) -> bool {
    new.len() >= old.len() && new.subrange(0, old.len() as int) == old
}

/// The range (start, length) that the index `iv` gives `k`, if any.
pub open spec fn find_range(iv: Seq<(Seq<char>, int, int)>, k: Seq<char>) -> Option<(int, int)>
    decreases iv.len(),
{
    if iv.len() == 0 {
        None
    } else if iv.last().0 == k {
        Some((iv.last().1, iv.last().2))
    } else {
        find_range(iv.drop_last(), k)
    }
}

/// The length of a range, 0 for none.
pub open spec fn range_len(r: Option<(int, int)>) -> int {
    match r {
        Some((_, len)) => len,
        None => 0,
    }
}

/// Whether no key occurs twice in the index `iv`.
pub open spec fn unique_keys(iv: Seq<(Seq<char>, int, int)>) -> bool {
    forall|i: int, j: int| 0 <= i < j < iv.len() ==> iv[i].0 != iv[j].0
}

proof fn lemma_find_range(iv: Seq<(Seq<char>, int, int)>, k: Seq<char>)
    requires
        unique_keys(iv),
    ensures
        forall|i: int|
            0 <= i < iv.len() && (#[trigger] iv[i]).0 == k ==> find_range(iv, k) == Some(
                (iv[i].1, iv[i].2),
            ),
        (forall|i: int| 0 <= i < iv.len() ==> (#[trigger] iv[i]).0 != k) ==> find_range(iv, k)
            is None,
    decreases iv.len(),
{
    if iv.len() > 0 {
        let d = iv.drop_last();
        lemma_find_range(d, k);
        assert forall|i: int| 0 <= i < iv.len() && (#[trigger] iv[i]).0 == k implies find_range(
            iv,
            k,
        ) == Some((iv[i].1, iv[i].2)) by {
            if i < iv.len() - 1 {
                assert(d[i] == iv[i]);
                assert(iv[i].0 != iv[iv.len() - 1].0);
            }
        }
        if forall|i: int| 0 <= i < iv.len() ==> (#[trigger] iv[i]).0 != k {
            assert forall|i: int| 0 <= i < d.len() implies (#[trigger] d[i]).0 != k by {
                assert(d[i] == iv[i]);
            }
            assert(iv[iv.len() - 1].0 != k);
        }
    }
}

/// Whether a record keeps to the size limits of keys and values.
pub open spec fn within_limits(r: RecordView) -> bool {
    match r {
        RecordView::Put { key, value } => byte_len(key) <= MAX_KEY_LEN && byte_len(value)
            <= MAX_VALUE_LEN,
        RecordView::Rm { key } => byte_len(key) <= MAX_KEY_LEN,
    }
}

/// Whether every record of `rs` keeps to the size limits.
pub open spec fn all_within(rs: Seq<RecordView>) -> bool
    decreases rs.len(),
{
    rs.len() == 0 || (all_within(rs.drop_last()) && within_limits(rs.last()))
}

/// Replaying records that keep to the size limits stores keys and values
/// that keep to them.
pub proof fn lemma_replay_within(rs: Seq<RecordView>)
    requires
        all_within(rs),
    ensures
        forall|k: Seq<char>| #[trigger]
            replay(rs).contains_key(k) ==> byte_len(k) <= MAX_KEY_LEN && byte_len(replay(rs)[k])
                <= MAX_VALUE_LEN,
    decreases rs.len(),
{
    if rs.len() == 0 {
        assert(replay(rs) == Map::<Seq<char>, Seq<char>>::empty());
    } else {
        lemma_replay_within(rs.drop_last());
        assert(within_limits(rs.last()));
        match rs.last() {
            RecordView::Put { key, value } => {
                assert(replay(rs) == replay(rs.drop_last()).insert(key, value));
            },
            RecordView::Rm { key } => {
                assert(replay(rs) == replay(rs.drop_last()).remove(key));
            },
        }
    }
}

proof fn lemma_put_records_within(ks: Seq<Seq<char>>, m: Map<Seq<char>, Seq<char>>)
    requires
        forall|i: int|
            0 <= i < ks.len() ==> byte_len(#[trigger] ks[i]) <= MAX_KEY_LEN && byte_len(m[ks[i]])
                <= MAX_VALUE_LEN,
    ensures
        all_within(put_records(ks, m)),
    decreases ks.len(),
{
    if ks.len() > 0 {
        let d = ks.drop_last();
        assert(put_records(ks, m).drop_last() =~= put_records(d, m));
        assert forall|i: int| 0 <= i < d.len() implies byte_len(#[trigger] d[i]) <= MAX_KEY_LEN
            && byte_len(m[d[i]]) <= MAX_VALUE_LEN by {
            assert(d[i] == ks[i]);
        }
        lemma_put_records_within(d, m);
        assert(ks[ks.len() - 1] == ks.last());
    }
}

proof fn lemma_find_range_same(
    iv1: Seq<(Seq<char>, int, int)>,
    iv2: Seq<(Seq<char>, int, int)>,
    k: Seq<char>,
)
    requires
        unique_keys(iv1),
        unique_keys(iv2),
        forall|j: int|
            0 <= j < iv1.len() && iv1[j].0 == k ==> exists|t: int|
                0 <= t < iv2.len() && #[trigger] iv2[t] == iv1[j],
        forall|t: int|
            0 <= t < iv2.len() && iv2[t].0 == k ==> exists|j: int|
                0 <= j < iv1.len() && #[trigger] iv1[j] == iv2[t],
    ensures
        find_range(iv1, k) == find_range(iv2, k),
{
    lemma_find_range(iv1, k);
    lemma_find_range(iv2, k);
    if exists|j: int| 0 <= j < iv1.len() && #[trigger] iv1[j].0 == k {
        let j = choose|j: int| 0 <= j < iv1.len() && #[trigger] iv1[j].0 == k;
        let t = choose|t: int| 0 <= t < iv2.len() && #[trigger] iv2[t] == iv1[j];
        assert(iv2[t].0 == k);
    } else if exists|t: int| 0 <= t < iv2.len() && #[trigger] iv2[t].0 == k {
        let t = choose|t: int| 0 <= t < iv2.len() && #[trigger] iv2[t].0 == k;
        let j = choose|j: int| 0 <= j < iv1.len() && #[trigger] iv1[j] == iv2[t];
        assert(iv1[j].0 == k);
    } else {
        assert forall|i: int| 0 <= i < iv1.len() implies (#[trigger] iv1[i]).0 != k by {}
        assert forall|i: int| 0 <= i < iv2.len() implies (#[trigger] iv2[i]).0 != k by {}
    }
}

/// Two indexes that agree on every entry of a key other than `k` give every
/// such key the same range.
proof fn lemma_other_ranges(
    iv1: Seq<(Seq<char>, int, int)>,
    iv2: Seq<(Seq<char>, int, int)>,
    k: Seq<char>,
)
    requires
        unique_keys(iv1),
        unique_keys(iv2),
        forall|j: int|
            0 <= j < iv2.len() && iv2[j].0 != k ==> exists|t: int|
                0 <= t < iv1.len() && #[trigger] iv1[t] == iv2[j],
        forall|t: int|
            0 <= t < iv1.len() && iv1[t].0 != k ==> exists|j: int|
                0 <= j < iv2.len() && #[trigger] iv2[j] == iv1[t],
    ensures
        forall|k2: Seq<char>| k2 != k ==> #[trigger] find_range(iv2, k2) == find_range(iv1, k2),
{
    assert forall|k2: Seq<char>| k2 != k implies #[trigger] find_range(iv2, k2) == find_range(
        iv1,
        k2,
    ) by {
        lemma_find_range_same(iv1, iv2, k2);
    }
}

/// The number of bytes that `s` takes in UTF-8.
pub open spec fn byte_len(s: Seq<char>) -> nat {
    encode_utf8(s).len()
}

proof fn lemma_live_sum_update(s: Seq<IndexEntry>, i: int, e: IndexEntry)
    requires
        0 <= i < s.len(),
    ensures
        live_sum(s.update(i, e)) + s[i].pos.len == live_sum(s) + e.pos.len,
    decreases s.len(),
{
    if i < s.len() - 1 {
        assert(s.update(i, e).drop_last() =~= s.drop_last().update(i, e));
        lemma_live_sum_update(s.drop_last(), i, e);
    } else {
        assert(s.update(i, e).drop_last() =~= s.drop_last());
    }
}

proof fn lemma_live_sum_remove(s: Seq<IndexEntry>, i: int)
    requires
        0 <= i < s.len(),
    ensures
        live_sum(s.remove(i)) + s[i].pos.len == live_sum(s),
    decreases s.len(),
{
    if i < s.len() - 1 {
        assert(s.remove(i).drop_last() =~= s.drop_last().remove(i));
        lemma_live_sum_remove(s.drop_last(), i);
    } else {
        assert(s.remove(i) =~= s.drop_last());
    }
}

/// Replaying `Set` records for the keys `ks` stores exactly those keys, each
/// with its value in `m`.
proof fn lemma_replay_puts(ks: Seq<Seq<char>>, m: Map<Seq<char>, Seq<char>>)
    ensures
        forall|k: Seq<char>| #[trigger]
            replay(put_records(ks, m)).contains_key(k) <==> ks.contains(k),
        forall|k: Seq<char>| #[trigger]
            replay(put_records(ks, m)).contains_key(k) ==> replay(put_records(ks, m))[k] == m[k],
    decreases ks.len(),
{
    if ks.len() == 0 {
        assert(put_records(ks, m).len() == 0);
        assert(replay(put_records(ks, m)) == Map::<Seq<char>, Seq<char>>::empty());
    } else {
        let d = ks.drop_last();
        assert(put_records(ks, m).drop_last() =~= put_records(d, m));
        assert(put_records(ks, m).last() == RecordView::Put { key: ks.last(), value: m[ks.last()] });
        lemma_replay_puts(d, m);
        assert(replay(put_records(ks, m)) == replay(put_records(d, m)).insert(ks.last(), m[ks.last()]));
        assert forall|k: Seq<char>| ks.contains(k) <==> (d.contains(k) || k == ks.last()) by {
            if ks.contains(k) {
                let j = choose|j: int| 0 <= j < ks.len() && ks[j] == k;
                if j < ks.len() - 1 {
                    assert(d[j] == k);
                }
            }
            if d.contains(k) {
                let j = choose|j: int| 0 <= j < d.len() && d[j] == k;
                assert(ks[j] == k);
            }
        }
    }
}

/// The store: an in-memory log of encoded records, an index from each live
/// key to the range of its latest `Set` record, and a count of the bytes of
/// the log that no longer contribute to the stored map.
pub struct KvStore {
    log: Vec<u8>,
    index: Vec<IndexEntry>,
    redundance_bytes: u64,
    compactions: u64,
    records: Ghost<Seq<RecordView>>,
}

impl KvStore {
    /// The stored map: what the records of the log leave when replayed.
    pub closed spec fn contents(&self) -> Map<Seq<char>, Seq<char>> {
        replay(self.records@)
    }

    /// The bytes of the log.
    pub closed spec fn log_view(&self) -> Seq<u8> {
        self.log@
    }

    /// The records of the log, in order.
    pub closed spec fn records(&self) -> Seq<RecordView> {
        self.records@
    }

    /// The keys of the index, in its order.
    pub closed spec fn key_order(&self) -> Seq<Seq<char>> {
        self.index@.map_values(|e: IndexEntry| e.key@)
    }

    /// The index: each key with the start and the length of its range.
    pub closed spec fn index_view(&self) -> Seq<(Seq<char>, int, int)> {
        self.index@.map_values(|e: IndexEntry| (e.key@, e.pos.pos as int, e.pos.len as int))
    }

    /// The number of superseded bytes counted since the last compaction or open.
    pub closed spec fn redundancy(&self) -> int {
        self.redundance_bytes as int
    }

    /// How many compactions have rewritten the log since the store was opened.
    pub closed spec fn compaction_count(&self) -> int {
        self.compactions as int
    }

    /// The sum of the lengths of the ranges that the index points at.
    pub closed spec fn live_bytes(&self) -> int {
        live_sum(self.index@) as int
    }

    closed spec fn entry_ok(&self, i: int) -> bool {
        let e = self.index@[i];
        &&& e.pos.pos + e.pos.len <= self.log@.len()
        &&& self.log@.subrange(e.pos.pos as int, e.pos.pos + e.pos.len) == encode_record(
            RecordView::Put { key: e.key@, value: self.contents()[e.key@] },
        )
    }

    /// The store's invariant.
    pub closed spec fn wf(&self) -> bool {
        &&& self.log@ == log_of(self.records@)
        &&& forall|i: int, j: int|
            0 <= i < j < self.index@.len() ==> #[trigger] self.index@[i].key@
                != #[trigger] self.index@[j].key@
        &&& forall|k: Seq<char>| #[trigger]
            self.contents().contains_key(k) <==> self.key_order().contains(k)
        &&& forall|i: int| 0 <= i < self.index@.len() ==> #[trigger] self.entry_ok(i)
        &&& self.redundance_bytes + live_sum(self.index@) <= self.log@.len()
        &&& all_within(self.records@)
    }

    /// What compaction leaves of `old`: the same map and key order, a log
    /// that holds one `Set` record per key in that order, an index that
    /// points at those records, and no superseded bytes.
    pub open spec fn compacted_from(self, old: KvStore) -> bool {
        let ks = old.key_order();
        let m = old.contents();
        &&& self.contents() == m
        &&& self.key_order() == ks
        &&& forall|i: int, j: int| 0 <= i < j < ks.len() ==> ks[i] != ks[j]
        &&& forall|k: Seq<char>| m.contains_key(k) <==> ks.contains(k)
        &&& self.log_view() == log_of(put_records(ks, m))
        &&& self.index_view().len() == ks.len()
        &&& forall|i: int|
            0 <= i < ks.len() ==> #[trigger] self.index_view()[i] == (
                ks[i],
                log_of(put_records(ks.take(i), m)).len() as int,
                encode_record(RecordView::Put { key: ks[i], value: m[ks[i]] }).len() as int,
            )
        &&& self.log_view().len() == self.live_bytes()
        &&& self.redundancy() == 0
    }

    /// The superseded bytes once a `Set` record for `k` is appended: the
    /// range of the record it replaces counts as superseded.
    pub open spec fn pending_after_put(&self, k: Seq<char>) -> int {
        self.redundancy() + range_len(self.range_of(k))
    }

    /// The superseded bytes once a `Remove` record for `k` is appended: the
    /// record it removes and the tombstone itself.
    pub open spec fn pending_after_rm(&self, k: Seq<char>) -> int {
        self.redundancy() + range_len(self.range_of(k)) + encode_record(
            RecordView::Rm { key: k },
        ).len()
    }

    /// Whether the log of `self` holds one `Set` record per stored key, in
    /// the order of the index, with no superseded bytes.
    pub open spec fn is_compacted(&self) -> bool {
        &&& self.log_view() == log_of(put_records(self.key_order(), self.contents()))
        &&& self.log_view().len() == self.live_bytes()
        &&& self.redundancy() == 0
        &&& forall|i: int, j: int|
            0 <= i < j < self.key_order().len() ==> self.key_order()[i] != self.key_order()[j]
        &&& forall|k: Seq<char>| self.contents().contains_key(k) <==> self.key_order().contains(k)
    }

    /// The range of the latest `Set` record of `k`, if `k` is stored.
    pub open spec fn range_of(&self, k: Seq<char>) -> Option<(int, int)> {
        find_range(self.index_view(), k)
    }

    proof fn lemma_unique_view(&self)
        requires
            forall|i: int, j: int|
                0 <= i < j < self.index@.len() ==> #[trigger] self.index@[i].key@
                    != #[trigger] self.index@[j].key@,
        ensures
            unique_keys(self.index_view()),
    {
        self.lemma_index_view();
        assert forall|i: int, j: int| 0 <= i < j < self.index_view().len() implies self.index_view()[i].0
            != self.index_view()[j].0 by {
            assert(self.index@[i].key@ != self.index@[j].key@);
        }
    }

    proof fn lemma_pending(&self, mid: KvStore, k: Seq<char>)
        requires
            self.wf(),
            mid.wf(),
            (exists|i: int|
                0 <= i < self.index_view().len() && (#[trigger] self.index_view()[i]).0 == k
                    && mid.redundancy() == self.redundancy() + self.index_view()[i].2) || ((forall|
                i: int,
            | 0 <= i < self.index_view().len() ==> (#[trigger] self.index_view()[i]).0 != k)
                && mid.redundancy() == self.redundancy()),
            exists|i: int|
                0 <= i < mid.index_view().len() && (#[trigger] mid.index_view()[i]).0 == k,
        ensures
            mid.redundancy() == self.pending_after_put(k),
            forall|i: int|
                0 <= i < mid.index_view().len() && (#[trigger] mid.index_view()[i]).0 == k
                    ==> mid.range_of(k) == Some((mid.index_view()[i].1, mid.index_view()[i].2)),
    {
        self.lemma_unique_view();
        mid.lemma_unique_view();
        lemma_find_range(self.index_view(), k);
        lemma_find_range(mid.index_view(), k);
    }

    proof fn lemma_pending_rm(&self, mid: KvStore, k: Seq<char>)
        requires
            self.wf(),
            mid.wf(),
            (exists|i: int|
                0 <= i < self.index_view().len() && (#[trigger] self.index_view()[i]).0 == k
                    && mid.redundancy() == self.redundancy() + self.index_view()[i].2
                    + encode_record(RecordView::Rm { key: k }).len()) || ((forall|i: int|
                0 <= i < self.index_view().len() ==> (#[trigger] self.index_view()[i]).0 != k)
                && mid.redundancy() == self.redundancy() + encode_record(
                RecordView::Rm { key: k },
            ).len()),
            forall|i: int|
                0 <= i < mid.index_view().len() ==> (#[trigger] mid.index_view()[i]).0 != k,
        ensures
            mid.redundancy() == self.pending_after_rm(k),
            mid.range_of(k) is None,
    {
        self.lemma_unique_view();
        mid.lemma_unique_view();
        lemma_find_range(self.index_view(), k);
        lemma_find_range(mid.index_view(), k);
    }

    proof fn lemma_index_view(&self)
        ensures
            self.index_view().len() == self.index@.len(),
            forall|i: int|
                0 <= i < self.index@.len() ==> #[trigger] self.index_view()[i] == (
                    self.index@[i].key@,
                    self.index@[i].pos.pos as int,
                    self.index@[i].pos.len as int,
                ),
    {
    }

    proof fn lemma_key_order(&self)
        ensures
            self.key_order().len() == self.index@.len(),
            forall|i: int|
                0 <= i < self.index@.len() ==> #[trigger] self.key_order()[i]
                    == self.index@[i].key@,
    {
    }

    /// An empty store.
    pub fn new() -> (r: KvStore)
        ensures
            r.wf(),
            r.contents() == Map::<Seq<char>, Seq<char>>::empty(),
            r.log_view() == Seq::<u8>::empty(),
            r.redundancy() == 0,
    {
        let r = KvStore {
            log: Vec::new(),
            index: Vec::new(),
            redundance_bytes: 0,
            compactions: 0,
            records: Ghost(Seq::empty()),
        };
        assert(r.log@ =~= log_of(r.records@));
        r
    }

    /// The bytes of the log.
    pub fn log_bytes(&self) -> (r: &Vec<u8>)
        ensures
            r@ == self.log_view(),
    {
        &self.log
    }

    /// How many compactions have rewritten the log since the store was
    /// opened (stopping at the largest `u64`).
    pub fn compactions(&self) -> (r: u64)
        ensures
            r == self.compaction_count(),
    {
        self.compactions
    }

    /// The number of superseded bytes counted since the last compaction or open.
    pub fn redundance_bytes(&self) -> (r: u64)
        ensures
            r == self.redundancy(),
    {
        self.redundance_bytes
    }

    /// Each key of the index with the range of its latest `Set` record, in
    /// the order of the index.
    pub fn index_snapshot(&self) -> (r: Vec<(String, CommandPos)>)
        ensures
            r@.len() == self.index_view().len(),
            forall|i: int|
                0 <= i < r@.len() ==> (#[trigger] r@[i]).0@ == self.index_view()[i].0 && r@[i].1.pos
                    == self.index_view()[i].1 && r@[i].1.len == self.index_view()[i].2,
    {
        let mut out: Vec<(String, CommandPos)> = Vec::new();
        let n = self.index.len();
        let mut i: usize = 0;
        while i < n
            invariant
                n == self.index@.len(),
                i <= n,
                out@.len() == i,
                forall|j: int|
                    0 <= j < i ==> (#[trigger] out@[j]).0@ == self.index@[j].key@ && out@[j].1
                        == self.index@[j].pos,
            decreases n - i,
        {
            out.push((self.index[i].key.clone(), self.index[i].pos));
            i = i + 1;
        }
        out
    }

    /// The position of `key` in the index.
    fn find(&self, key: &String) -> (r: Option<usize>)
        ensures
            r matches Some(i) ==> i < self.index@.len() && self.index@[i as int].key@ == key@,
            r is None ==> forall|i: int|
                0 <= i < self.index@.len() ==> #[trigger] self.index@[i].key@ != key@,
    {
        let mut i: usize = 0;
        while i < self.index.len()
            invariant
                i <= self.index@.len(),
                forall|j: int| 0 <= j < i ==> #[trigger] self.index@[j].key@ != key@,
            decreases self.index@.len() - i,
        {
            if self.index[i].key == *key {
                return Some(i);
            }
            i = i + 1;
        }
        None
    }

    proof fn lemma_entries_after_append(&self, old: KvStore, k: Seq<char>)
        requires
            old.wf(),
            self.log@.len() >= old.log@.len(),
            self.log@.subrange(0, old.log@.len() as int) == old.log@,
            forall|j: int|
                0 <= j < self.index@.len() && self.index@[j].key@ != k ==> {
                    &&& exists|t: int|
                        0 <= t < old.index@.len() && #[trigger] old.index@[t] == self.index@[j]
                },
            forall|kk: Seq<char>|
                kk != k ==> #[trigger] self.contents().contains_key(kk)
                    == old.contents().contains_key(kk) && self.contents()[kk]
                    == old.contents()[kk],
        ensures
            forall|j: int|
                0 <= j < self.index@.len() && self.index@[j].key@ != k ==> #[trigger] self.entry_ok(
                    j,
                ),
    {
        assert forall|j: int|
            0 <= j < self.index@.len() && self.index@[j].key@ != k implies #[trigger] self.entry_ok(
            j,
        ) by {
            let t = choose|t: int| 0 <= t < old.index@.len() && #[trigger] old.index@[t] == self.index@[j];
            assert(old.entry_ok(t));
            let e = self.index@[j];
            assert(old.contents().contains_key(e.key@)) by {
                assert(old.key_order()[t] == e.key@);
            }
            assert(self.contents().contains_key(e.key@));
            assert(self.log@.subrange(e.pos.pos as int, e.pos.pos + e.pos.len) =~= old.log@.subrange(
                e.pos.pos as int,
                e.pos.pos + e.pos.len,
            ));
        }
    }

    /// Appends a `Set` record for `key` and points the index at it.
    fn append_put(&mut self, key: String, value: String)
        requires
            old(self).wf(),
            within_limits(RecordView::Put { key: key@, value: value@ }),
        ensures
            final(self).wf(),
            final(self).records() == old(self).records().push(
                RecordView::Put { key: key@, value: value@ },
            ),
            final(self).contents() == old(self).contents().insert(key@, value@),
            (exists|i: int|
                0 <= i < old(self).index_view().len() && (#[trigger] old(self).index_view()[i]).0
                    == key@ && final(self).redundancy() == old(self).redundancy() + old(self).index_view()[i].2) || ((forall|i: int|
                0 <= i < old(self).index_view().len() ==> (#[trigger] old(self).index_view()[i]).0 != key@) && final(self).redundancy() == old(self).redundancy()),
            final(self).log_view() == old(self).log_view() + encode_record(
                RecordView::Put { key: key@, value: value@ },
            ),
            exists|i: int|
                0 <= i < final(self).index_view().len() && #[trigger] final(self).index_view()[i]
                    == (
                    key@,
                    old(self).log_view().len() as int,
                    encode_record(RecordView::Put { key: key@, value: value@ }).len() as int,
                ),
            forall|j: int|
                0 <= j < final(self).index_view().len() && final(self).index_view()[j].0 != key@
                    ==> exists|t: int|
                    0 <= t < old(self).index_view().len() && #[trigger] old(self).index_view()[t]
                        == final(self).index_view()[j],
            forall|t: int|
                0 <= t < old(self).index_view().len() && old(self).index_view()[t].0 != key@
                    ==> exists|j: int|
                    0 <= j < final(self).index_view().len() && #[trigger] final(self).index_view()[j] == old(self).index_view()[t],
            final(self).compaction_count() == old(self).compaction_count(),
    {
        let ghost old_self = *self;
        let cmd = Command::Put { key, value };
        let mut bytes = encode(&cmd);
        let ghost r = cmd@;
        let start = self.log.len();
        let len = bytes.len();
        self.log.append(&mut bytes);
        let end = self.log.len();
        let (key, value) = match cmd {
            Command::Put { key, value } => (key, value),
            Command::Rm { key } => (key, String::new()),
        };
        self.records = Ghost(self.records@.push(r));
        proof {
            assert(self.records@.drop_last() =~= old_self.records@);
            assert(old_self.records@.push(r).last() == r);
        }
        let pos = CommandPos { pos: start, len };
        let ghost k = key@;
        let ghost mut at: int = 0;
        let ghost mut found = false;
        match self.find(&key) {
            Some(i) => {
                proof {
                    at = i as int;
                    found = true;
                }
                let old_len = self.index[i].pos.len;
                proof {
                    lemma_live_sum_update(self.index@, i as int, IndexEntry { key, pos });
                }
                self.index[i] = IndexEntry { key, pos };
                self.redundance_bytes = self.redundance_bytes + old_len as u64;
            },
            None => {
                self.index.push(IndexEntry { key, pos });
                proof {
                    at = old_self.index@.len() as int;
                    assert(self.index@.drop_last() =~= old_self.index@);
                }
            },
        }
        proof {
            assert(0 <= at < self.index@.len() && self.index@[at].key@ == k);
            assert(self.contents() == old_self.contents().insert(k, value@));
            assert(self.log@.subrange(0, start as int) =~= old_self.log@);
            assert(self.log@.subrange(start as int, end as int) =~= encode_record(r));
            self.lemma_key_order();
            old_self.lemma_key_order();
            assert forall|j: int|
                0 <= j < self.index@.len() && self.index@[j].key@ != k implies exists|t: int|
                0 <= t < old_self.index@.len() && #[trigger] old_self.index@[t] == self.index@[j] by {
                assert(old_self.index@[j] == self.index@[j]);
            }
            self.lemma_entries_after_append(old_self, k);
            assert forall|j: int| 0 <= j < self.index@.len() implies #[trigger] self.entry_ok(j) by {
                if self.index@[j].key@ == k {
                    assert(self.index@[j].pos == pos);
                }
            }
            assert forall|kk: Seq<char>| #[trigger]
                self.contents().contains_key(kk) <==> self.key_order().contains(kk) by {
                if kk == k {
                    assert(self.key_order()[at] == k);
                } else {
                    if old_self.key_order().contains(kk) {
                        let j = choose|j: int|
                            0 <= j < old_self.key_order().len() && old_self.key_order()[j] == kk;
                        assert(self.key_order()[j] == kk);
                    }
                    if self.key_order().contains(kk) {
                        let j = choose|j: int|
                            0 <= j < self.key_order().len() && self.key_order()[j] == kk;
                        assert(old_self.key_order()[j] == kk);
                    }
                }
            }
            self.lemma_index_view();
            old_self.lemma_index_view();
            if found {
                assert(old_self.index_view()[at].0 == k);
            }
            assert(self.index_view()[at] == (
                k,
                old_self.log@.len() as int,
                encode_record(r).len() as int,
            ));
            assert forall|j: int|
                0 <= j < self.index_view().len() && self.index_view()[j].0 != k implies exists|t: int|
                0 <= t < old_self.index_view().len() && #[trigger] old_self.index_view()[t]
                    == self.index_view()[j] by {
                assert(j != at);
                assert(old_self.index_view()[j] == self.index_view()[j]);
            }
            assert forall|t: int|
                0 <= t < old_self.index_view().len() && old_self.index_view()[t].0 != k implies exists|
                j: int,
            | 0 <= j < self.index_view().len() && #[trigger] self.index_view()[j]
                == old_self.index_view()[t] by {
                assert(t != at);
                assert(old_self.index_view()[t] == self.index_view()[t]);
            }
        }
    }

    /// Appends a `Remove` record for `key` and drops the key from the index.
    fn append_rm(&mut self, key: String)
        requires
            old(self).wf(),
            byte_len(key@) <= MAX_KEY_LEN,
        ensures
            final(self).wf(),
            final(self).records() == old(self).records().push(RecordView::Rm { key: key@ }),
            final(self).contents() == old(self).contents().remove(key@),
            (exists|i: int|
                0 <= i < old(self).index_view().len() && (#[trigger] old(self).index_view()[i]).0
                    == key@ && final(self).redundancy() == old(self).redundancy() + old(self).index_view()[i].2 + encode_record(RecordView::Rm { key: key@ }).len()) || ((
            forall|i: int|
                0 <= i < old(self).index_view().len() ==> (#[trigger] old(self).index_view()[i]).0 != key@) && final(self).redundancy() == old(self).redundancy() + encode_record(RecordView::Rm { key: key@ }).len()),
            final(self).log_view() == old(self).log_view() + encode_record(
                RecordView::Rm { key: key@ },
            ),
            forall|i: int|
                0 <= i < final(self).index_view().len() ==> (#[trigger] final(self).index_view()[i]).0 != key@,
            forall|j: int|
                0 <= j < final(self).index_view().len() && final(self).index_view()[j].0 != key@
                    ==> exists|t: int|
                    0 <= t < old(self).index_view().len() && #[trigger] old(self).index_view()[t]
                        == final(self).index_view()[j],
            forall|t: int|
                0 <= t < old(self).index_view().len() && old(self).index_view()[t].0 != key@
                    ==> exists|j: int|
                    0 <= j < final(self).index_view().len() && #[trigger] final(self).index_view()[j]
                        == old(self).index_view()[t],
            final(self).compaction_count() == old(self).compaction_count(),
    {
        let ghost old_self = *self;
        let cmd = Command::Rm { key };
        let mut bytes = encode(&cmd);
        let ghost r = cmd@;
        let len = bytes.len();
        self.log.append(&mut bytes);
        let end = self.log.len();
        let key = match cmd {
            Command::Rm { key } => key,
            Command::Put { key, value } => key,
        };
        let ghost k = key@;
        self.records = Ghost(self.records@.push(r));
        proof {
            assert(self.records@.drop_last() =~= old_self.records@);
            assert(old_self.records@.push(r).last() == r);
            assert(self.contents() == old_self.contents().remove(k));
        }
        let ghost mut rm_at: int = -1;
        match self.find(&key) {
            Some(i) => {
                let old_len = self.index[i].pos.len;
                proof {
                    lemma_live_sum_remove(self.index@, i as int);
                }
                self.index.remove(i);
                self.redundance_bytes = self.redundance_bytes + old_len as u64 + len as u64;
                proof {
                    rm_at = i as int;
                    assert forall|j: int|
                        0 <= j < self.index@.len() && self.index@[j].key@ != k implies exists|t: int|
                        0 <= t < old_self.index@.len() && #[trigger] old_self.index@[t]
                            == self.index@[j] by {
                        if j < i {
                            assert(old_self.index@[j] == self.index@[j]);
                        } else {
                            assert(old_self.index@[j + 1] == self.index@[j]);
                        }
                    }
                    assert forall|j: int| 0 <= j < self.index@.len() implies self.index@[j].key@
                        != k by {
                        if j < i {
                            assert(old_self.index@[j] == self.index@[j]);
                        } else {
                            assert(old_self.index@[j + 1] == self.index@[j]);
                        }
                    }
                    assert(forall|a: int, b: int|
                        0 <= a < b < self.index@.len() ==> self.index@[a] == old_self.index@[if a
                            < i {
                            a
                        } else {
                            a + 1
                        }] && self.index@[b] == old_self.index@[if b < i {
                            b
                        } else {
                            b + 1
                        }]);
                }
            },
            None => {
                self.redundance_bytes = self.redundance_bytes + len as u64;
                proof {
                    assert forall|j: int|
                        0 <= j < self.index@.len() && self.index@[j].key@ != k implies exists|t: int|
                        0 <= t < old_self.index@.len() && #[trigger] old_self.index@[t]
                            == self.index@[j] by {
                        assert(old_self.index@[j] == self.index@[j]);
                    }
                }
            },
        }
        proof {
            assert(self.log@.subrange(0, old_self.log@.len() as int) =~= old_self.log@);
            self.lemma_key_order();
            old_self.lemma_key_order();
            self.lemma_entries_after_append(old_self, k);
            assert forall|j: int| 0 <= j < self.index@.len() implies #[trigger] self.entry_ok(j) by {
                assert(self.index@[j].key@ != k);
            }
            assert forall|kk: Seq<char>| #[trigger]
                self.contents().contains_key(kk) <==> self.key_order().contains(kk) by {
                if kk == k {
                    if self.key_order().contains(kk) {
                        let j = choose|j: int|
                            0 <= j < self.key_order().len() && self.key_order()[j] == kk;
                        assert(self.index@[j].key@ != k);
                    }
                } else {
                    if old_self.key_order().contains(kk) {
                        let j = choose|j: int|
                            0 <= j < old_self.key_order().len() && old_self.key_order()[j] == kk;
                        assert(old_self.index@[j].key@ == kk);
                        assert(self.key_order().contains(kk)) by {
                            if self.index@.len() < old_self.index@.len() {
                                let i = choose|i: int|
                                    0 <= i < old_self.index@.len() && old_self.index@[i].key@ == k;
                                if j < i {
                                    assert(self.key_order()[j] == kk);
                                } else {
                                    assert(self.key_order()[j - 1] == kk);
                                }
                            } else {
                                assert(self.key_order()[j] == kk);
                            }
                        }
                    }
                    if self.key_order().contains(kk) {
                        let j = choose|j: int|
                            0 <= j < self.key_order().len() && self.key_order()[j] == kk;
                        let t = choose|t: int|
                            0 <= t < old_self.index@.len() && #[trigger] old_self.index@[t]
                                == self.index@[j];
                        assert(old_self.key_order()[t] == kk);
                    }
                }
            }
            self.lemma_index_view();
            old_self.lemma_index_view();
            if rm_at >= 0 {
                assert(old_self.index_view()[rm_at].0 == k);
            }
            assert forall|j: int|
                0 <= j < self.index_view().len() && self.index_view()[j].0 != k implies exists|t: int|
                0 <= t < old_self.index_view().len() && #[trigger] old_self.index_view()[t]
                    == self.index_view()[j] by {
                if rm_at >= 0 && j >= rm_at {
                    assert(old_self.index@[j + 1] == self.index@[j]);
                    assert(old_self.index_view()[j + 1] == self.index_view()[j]);
                } else {
                    assert(old_self.index@[j] == self.index@[j]);
                    assert(old_self.index_view()[j] == self.index_view()[j]);
                }
            }
            assert forall|t: int|
                0 <= t < old_self.index_view().len() && old_self.index_view()[t].0 != k implies exists|
                j: int,
            | 0 <= j < self.index_view().len() && #[trigger] self.index_view()[j]
                == old_self.index_view()[t] by {
                if rm_at >= 0 && t > rm_at {
                    assert(old_self.index@[t] == self.index@[t - 1]);
                    assert(self.index_view()[t - 1] == old_self.index_view()[t]);
                } else {
                    assert(t != rm_at);
                    assert(old_self.index@[t] == self.index@[t]);
                    assert(self.index_view()[t] == old_self.index_view()[t]);
                }
            }
        }
    }

    /// Rewrites the log so that it holds one `Set` record per live key, in
    /// the order of the index, and points the index at the new records.
    pub fn log_compact(&mut self)
        requires
            old(self).wf(),
        ensures
            final(self).wf(),
            final(self).compacted_from(*old(self)),
            final(self).is_compacted(),
            final(self).contents() == old(self).contents(),
            final(self).key_order() == old(self).key_order(),
            final(self).compaction_count() == if old(self).compaction_count() < u64::MAX {
                old(self).compaction_count() + 1
            } else {
                old(self).compaction_count()
            },
    {
        let ghost old_self = *self;
        let ghost ks = self.key_order();
        let ghost m = self.contents();
        let mut new_log: Vec<u8> = Vec::new();
        let mut new_index: Vec<IndexEntry> = Vec::new();
        let n = self.index.len();
        let mut i: usize = 0;
        proof {
            self.lemma_key_order();
            assert(put_records(ks.take(0), m) =~= Seq::<RecordView>::empty());
            assert(new_log@ =~= log_of(put_records(ks.take(0), m)));
        }
        while i < n
            invariant
                *self == old_self,
                old_self.wf(),
                ks == old_self.key_order(),
                m == old_self.contents(),
                n == old_self.index@.len(),
                ks.len() == n,
                forall|j: int| 0 <= j < n ==> #[trigger] ks[j] == old_self.index@[j].key@,
                i <= n,
                new_log@ == log_of(put_records(ks.take(i as int), m)),
                new_index@.len() == i,
                forall|j: int|
                    0 <= j < i ==> (#[trigger] new_index@[j]).key@ == ks[j] && new_index@[j].pos.pos
                        == log_of(put_records(ks.take(j), m)).len() && new_index@[j].pos.len
                        == encode_record(RecordView::Put { key: ks[j], value: m[ks[j]] }).len(),
                live_sum(new_index@) == new_log@.len(),
            decreases n - i,
        {
            let p = self.index[i].pos.pos;
            let l = self.index[i].pos.len;
            let start = new_log.len();
            proof {
                assert(self.entry_ok(i as int));
            }
            copy_range(&mut new_log, &self.log, p, l);
            let key = self.index[i].key.clone();
            let ghost entry = IndexEntry { key, pos: CommandPos { pos: start, len: l } };
            let ghost prev_index = new_index@;
            new_index.push(IndexEntry { key, pos: CommandPos { pos: start, len: l } });
            proof {
                let rec = RecordView::Put { key: ks[i as int], value: m[ks[i as int]] };
                let rs = put_records(ks.take(i + 1), m);
                assert(rs =~= put_records(ks.take(i as int), m).push(rec));
                assert(rs.drop_last() =~= put_records(ks.take(i as int), m));
                assert(new_log@ =~= log_of(rs));
                assert(new_index@.drop_last() =~= prev_index);
                assert(new_index@.last() == entry);
            }
            i = i + 1;
        }
        proof {
            assert(ks.take(n as int) =~= ks);
            lemma_replay_puts(ks, m);
            lemma_replay_within(old_self.records@);
            assert forall|i: int| 0 <= i < ks.len() implies byte_len(#[trigger] ks[i])
                <= MAX_KEY_LEN && byte_len(m[ks[i]]) <= MAX_VALUE_LEN by {
                assert(old_self.key_order()[i] == ks[i]);
                assert(old_self.key_order().contains(ks[i]));
                assert(m.contains_key(ks[i]));
            }
            lemma_put_records_within(ks, m);
        }
        self.log = new_log;
        self.index = new_index;
        self.records = Ghost(put_records(ks, m));
        self.redundance_bytes = 0;
        if self.compactions < u64::MAX {
            self.compactions = self.compactions + 1;
        }
        proof {
            self.lemma_key_order();
            assert(self.contents() =~= m) by {
                assert forall|k: Seq<char>| self.contents().contains_key(k) <==> m.contains_key(k) by {
                    assert(old_self.contents().contains_key(k) <==> old_self.key_order().contains(k));
                }
            }
            assert(self.key_order() =~= ks);
            assert forall|j: int| 0 <= j < self.index@.len() implies #[trigger] self.entry_ok(j) by {
                lemma_put_layout(ks, m, j);
            }
            self.lemma_index_view();
            old_self.lemma_key_order();
            assert forall|a: int, b: int| 0 <= a < b < ks.len() implies ks[a] != ks[b] by {
                assert(old_self.index@[a].key@ != old_self.index@[b].key@);
            }
        }
    }

    /// Opens a store on the bytes of a log: the records are read from the
    /// start up to the end or to the first bytes that are not a record, and
    /// replayed in order. No bytes count as superseded yet.
    pub fn open(log: &Vec<u8>) -> (r: KvStore)
        ensures
            r.wf(),
            r.records().len() <= parse_log(log@).len(),
            r.records() == parse_log(log@).take(r.records().len() as int),
            r.records().len() < parse_log(log@).len() ==> !within_limits(
                parse_log(log@)[r.records().len() as int],
            ),
            all_within(r.records()),
            r.contents() == replay(r.records()),
            r.log_view() == log_of(r.records()),
            r.redundancy() == 0,
    {
        let mut store = KvStore::new();
        let n = log.len();
        let mut p: usize = 0;
        let mut done = false;
        proof {
            assert(store.records() + parse_log_from(log@, 0) =~= parse_log(log@));
        }
        while !done && p < n
            invariant
                n == log@.len(),
                store.wf(),
                p <= n,
                parse_log(log@) == store.records() + parse_log_from(log@, p as int),
                done ==> parse_log_from(log@, p as int) == Seq::<RecordView>::empty() || !within_limits(
                    parse_log_from(log@, p as int)[0],
                ),
            decreases n - p + (if done { 0int } else { 1int }),
        {
            match decode_at(log, p) {
                Some((cmd, e)) => {
                    let ghost c = cmd@;
                    let ghost before = store.records();
                    proof {
                        assert(parse_log_from(log@, p as int) == seq![c] + parse_log_from(
                            log@,
                            e as int,
                        ));
                        assert((seq![c] + parse_log_from(log@, e as int))[0] == c);
                    }
                    match cmd {
                        Command::Put { key, value } => {
                            if key.as_str().as_bytes().len() <= MAX_KEY_LEN
                                && value.as_str().as_bytes().len() <= MAX_VALUE_LEN {
                                store.append_put(key, value);
                            } else {
                                done = true;
                            }
                        },
                        Command::Rm { key } => {
                            if key.as_str().as_bytes().len() <= MAX_KEY_LEN {
                                store.append_rm(key);
                            } else {
                                done = true;
                            }
                        },
                    }
                    if !done {
                        proof {
                            assert(before.push(c) + parse_log_from(log@, e as int) =~= before + (
                            seq![c] + parse_log_from(log@, e as int)));
                        }
                        p = e;
                    }
                },
                None => {
                    done = true;
                },
            }
        }
        proof {
            let rest = parse_log_from(log@, p as int);
            assert(parse_log(log@).take(store.records().len() as int) =~= store.records());
            if rest.len() > 0 {
                assert(parse_log(log@)[store.records().len() as int] == rest[0]);
            }
        }
        let ghost before = store;
        store.redundance_bytes = 0;
        proof {
            assert forall|i: int| 0 <= i < store.index@.len() implies #[trigger] store.entry_ok(i) by {
                assert(before.entry_ok(i));
            }
        }
        store
    }

    /// Stores `value` under `key`, after checking both sizes.
    pub fn set(&mut self, key: String, value: String) -> (r: Result<()>)
        requires
            old(self).wf(),
        ensures
            final(self).wf(),
            r is Ok <==> byte_len(key@) <= MAX_KEY_LEN && byte_len(value@) <= MAX_VALUE_LEN,
            byte_len(key@) > MAX_KEY_LEN ==> r matches Err(KvsError::InvalidKeySize),
            byte_len(key@) <= MAX_KEY_LEN && byte_len(value@) > MAX_VALUE_LEN ==> r matches Err(
                KvsError::InvalidValueSize,
            ),
            r is Ok ==> final(self).contents() == old(self).contents().insert(key@, value@),
            r is Err ==> *final(self) == *old(self),
            r is Ok && final(self).compaction_count() == old(self).compaction_count()
                && old(self).compaction_count() < u64::MAX ==> appended_to(
                final(self).log_view(),
                old(self).log_view(),
            ),
            r is Ok && old(self).pending_after_put(key@) < REDUNDANCE_THRESHOLD ==> {
                &&& final(self).log_view() == old(self).log_view() + encode_record(
                    RecordView::Put { key: key@, value: value@ },
                )
                &&& final(self).redundancy() == old(self).pending_after_put(key@)
                &&& final(self).range_of(key@) == Some(
                    (
                        old(self).log_view().len() as int,
                        encode_record(RecordView::Put { key: key@, value: value@ }).len() as int,
                    ),
                )
                &&& forall|k2: Seq<char>| k2 != key@ ==> #[trigger] final(self).range_of(k2)
                    == old(self).range_of(k2)
                &&& final(self).compaction_count() == old(self).compaction_count()
            },
            r is Ok && old(self).pending_after_put(key@) >= REDUNDANCE_THRESHOLD ==> {
                &&& final(self).is_compacted()
                &&& final(self).compaction_count() == if old(self).compaction_count() < u64::MAX {
                    old(self).compaction_count() + 1
                } else {
                    old(self).compaction_count()
                }
            },
            final(self).redundancy() <= final(self).log_view().len(),
    {
        match check_length(key.as_str(), "key", MAX_KEY_LEN) {
            Ok(()) => {},
            Err(e) => return Err(e),
        }
        match check_length(value.as_str(), "value", MAX_VALUE_LEN) {
            Ok(()) => {},
            Err(e) => return Err(e),
        }
        let ghost before = *self;
        let ghost k = key@;
        self.append_put(key, value);
        let ghost appended = *self;
        proof {
            assert(appended.log_view().subrange(0, before.log_view().len() as int)
                =~= before.log_view());
            before.lemma_pending(appended, k);
            before.lemma_unique_view();
            appended.lemma_unique_view();
            lemma_other_ranges(before.index_view(), appended.index_view(), k);
        }
        self.compact_if_needed();
        Ok(())
    }

    /// The value stored under `key`, if any.
    pub fn get(&self, key: String) -> (r: Result<Option<String>>)
        requires
            self.wf(),
        ensures
            r is Ok,
            r matches Ok(o) ==> (o is Some <==> self.contents().contains_key(key@)),
            r matches Ok(Some(v)) ==> v@ == self.contents()[key@],
    {
        match self.find(&key) {
            None => {
                proof {
                    self.lemma_key_order();
                    if self.key_order().contains(key@) {
                        let j = choose|j: int|
                            0 <= j < self.key_order().len() && self.key_order()[j] == key@;
                        assert(self.index@[j].key@ == key@);
                    }
                }
                Ok(None)
            },
            Some(i) => {
                let p = self.index[i].pos.pos;
                let ghost rec = RecordView::Put { key: key@, value: self.contents()[key@] };
                proof {
                    self.lemma_key_order();
                    assert(self.entry_ok(i as int));
                    assert(self.key_order()[i as int] == key@);
                    lemma_parse_encoded(self.log@, p as int, rec);
                }
                match decode_at(&self.log, p) {
                    Some((Command::Put { key: _, value }, _)) => Ok(Some(value)),
                    _ => Err(KvsError::Corruption),
                }
            },
        }
    }

    /// Removes `key` and its value.
    pub fn remove(&mut self, key: String) -> (r: Result<()>)
        requires
            old(self).wf(),
        ensures
            final(self).wf(),
            r is Ok <==> old(self).contents().contains_key(key@),
            r is Err ==> (r matches Err(KvsError::KeyNotFound)),
            r is Err ==> *final(self) == *old(self),
            r is Ok ==> final(self).contents() == old(self).contents().remove(key@),
            r is Ok && final(self).compaction_count() == old(self).compaction_count()
                && old(self).compaction_count() < u64::MAX ==> appended_to(
                final(self).log_view(),
                old(self).log_view(),
            ),
            r is Ok && old(self).pending_after_rm(key@) < REDUNDANCE_THRESHOLD ==> {
                &&& final(self).log_view() == old(self).log_view() + encode_record(
                    RecordView::Rm { key: key@ },
                )
                &&& final(self).redundancy() == old(self).pending_after_rm(key@)
                &&& final(self).range_of(key@) is None
                &&& forall|k2: Seq<char>| k2 != key@ ==> #[trigger] final(self).range_of(k2)
                    == old(self).range_of(k2)
                &&& final(self).compaction_count() == old(self).compaction_count()
            },
            r is Ok && old(self).pending_after_rm(key@) >= REDUNDANCE_THRESHOLD ==> {
                &&& final(self).is_compacted()
                &&& final(self).compaction_count() == if old(self).compaction_count() < u64::MAX {
                    old(self).compaction_count() + 1
                } else {
                    old(self).compaction_count()
                }
            },
            final(self).redundancy() <= final(self).log_view().len(),
    {
        match self.find(&key) {
            None => {
                proof {
                    self.lemma_key_order();
                    if self.key_order().contains(key@) {
                        let j = choose|j: int|
                            0 <= j < self.key_order().len() && self.key_order()[j] == key@;
                        assert(self.index@[j].key@ == key@);
                    }
                }
                Err(KvsError::KeyNotFound)
            },
            Some(i) => {
                proof {
                    self.lemma_key_order();
                    assert(self.key_order()[i as int] == key@);
                    lemma_replay_within(self.records@);
                    assert(self.contents().contains_key(key@));
                }
                let ghost before = *self;
                let ghost k = key@;
                self.append_rm(key);
                let ghost appended = *self;
                proof {
                    assert(appended.log_view().subrange(0, before.log_view().len() as int)
                        =~= before.log_view());
                    before.lemma_pending_rm(appended, k);
                    before.lemma_unique_view();
                    appended.lemma_unique_view();
                    lemma_other_ranges(before.index_view(), appended.index_view(), k);
                }
                self.compact_if_needed();
                Ok(())
            },
        }
    }

    /// The stored keys, each once, in no particular order.
    pub fn scan(&self) -> (r: Vec<String>)
        requires
            self.wf(),
        ensures
            forall|k: Seq<char>|
                self.contents().contains_key(k) <==> exists|i: int|
                    0 <= i < r@.len() && #[trigger] r@[i]@ == k,
            forall|i: int, j: int| 0 <= i < j < r@.len() ==> r@[i]@ != r@[j]@,
    {
        let mut out: Vec<String> = Vec::new();
        let n = self.index.len();
        let mut i: usize = 0;
        while i < n
            invariant
                n == self.index@.len(),
                i <= n,
                out@.len() == i,
                forall|j: int| 0 <= j < i ==> (#[trigger] out@[j])@ == self.index@[j].key@,
            decreases n - i,
        {
            out.push(self.index[i].key.clone());
            i = i + 1;
        }
        proof {
            self.lemma_key_order();
            assert forall|k: Seq<char>|
                self.contents().contains_key(k) <==> exists|i: int|
                    0 <= i < out@.len() && #[trigger] out@[i]@ == k by {
                if self.contents().contains_key(k) {
                    let j = choose|j: int|
                        0 <= j < self.key_order().len() && self.key_order()[j] == k;
                    assert(out@[j]@ == k);
                }
                if exists|i: int| 0 <= i < out@.len() && #[trigger] out@[i]@ == k {
                    let j = choose|j: int| 0 <= j < out@.len() && #[trigger] out@[j]@ == k;
                    assert(self.key_order()[j] == k);
                }
            }
            assert forall|a: int, b: int| 0 <= a < b < out@.len() implies out@[a]@ != out@[b]@ by {
                assert(self.index@[a].key@ != self.index@[b].key@);
            }
        }
        out
    }

    /// Runs a compaction once the superseded bytes reach the threshold.
    fn compact_if_needed(&mut self)
        requires
            old(self).wf(),
        ensures
            final(self).wf(),
            final(self).contents() == old(self).contents(),
            *final(self) == *old(self) || final(self).compaction_count() != old(self).compaction_count() || old(self).compaction_count() == u64::MAX,
            old(self).redundancy() < REDUNDANCE_THRESHOLD ==> *final(self) == *old(self),
            old(self).redundancy() >= REDUNDANCE_THRESHOLD ==> final(self).compacted_from(
                *old(self),
            ) && final(self).compaction_count() == if old(self).compaction_count() < u64::MAX {
                old(self).compaction_count() + 1
            } else {
                old(self).compaction_count()
            },
    {
        if self.redundance_bytes >= REDUNDANCE_THRESHOLD {
            self.log_compact();
        }
    }
}

/// The map that applying the records `ops` in order leaves of `m`.
pub open spec fn apply_all(m: Map<Seq<char>, Seq<char>>, ops: Seq<RecordView>) -> Map<
    Seq<char>,
    Seq<char>,
>
    decreases ops.len(),
{
    if ops.len() == 0 {
        m
    } else {
        match ops.last() {
            RecordView::Put { key, value } => apply_all(m, ops.drop_last()).insert(key, value),
            RecordView::Rm { key } => apply_all(m, ops.drop_last()).remove(key),
        }
    }
}

/// The key that a record is about.
pub open spec fn record_key(r: RecordView) -> Seq<char> {
    match r {
        RecordView::Put { key, .. } => key,
        RecordView::Rm { key } => key,
    }
}

/// Once `v` is stored under `k`, it stays there through any operations that
/// are about other keys: `get(k)` keeps returning `v` until the next `set`
/// or `remove` of `k`.
pub proof fn lemma_value_persists(
    m: Map<Seq<char>, Seq<char>>,
    k: Seq<char>,
    v: Seq<char>,
    ops: Seq<RecordView>,
)
    requires
        forall|i: int| 0 <= i < ops.len() ==> record_key(#[trigger] ops[i]) != k,
    ensures
        apply_all(m.insert(k, v), ops).contains_key(k),
        apply_all(m.insert(k, v), ops)[k] == v,
    decreases ops.len(),
{
    if ops.len() > 0 {
        let d = ops.drop_last();
        assert forall|i: int| 0 <= i < d.len() implies record_key(#[trigger] d[i]) != k by {
            assert(d[i] == ops[i]);
        }
        lemma_value_persists(m, k, v, d);
        assert(record_key(ops[ops.len() - 1]) != k);
    }
}

/// Reopening a store on its own log gives back the same records, hence the
/// same map: replaying the log equals the state that the operations left.
pub proof fn lemma_reopen(s: KvStore)
    requires
        s.wf(),
    ensures
        parse_log(s.log_view()) == s.records(),
        all_within(parse_log(s.log_view())),
        replay(parse_log(s.log_view())) == s.contents(),
        log_of(parse_log(s.log_view())) == s.log_view(),
{
    lemma_parse_log_of(s.records@);
}

/// What every well-formed store keeps: each index entry's range holds
/// exactly the `Set` record of its key with the stored value, and the
/// superseded bytes never exceed the log.
pub proof fn lemma_store_invariants(s: KvStore)
    requires
        s.wf(),
    ensures
        0 <= s.redundancy() <= s.log_view().len(),
        all_within(s.records()),
        s.log_view() == log_of(s.records()),
        s.contents() == replay(s.records()),
        forall|i: int|
            0 <= i < s.index_view().len() ==> {
                let (k, pos, len) = #[trigger] s.index_view()[i];
                &&& s.contents().contains_key(k)
                &&& crate::codec::parse_record_at(s.log_view(), pos) == Some(
                    (RecordView::Put { key: k, value: s.contents()[k] }, pos + len),
                )
            },
        forall|k: Seq<char>|
            s.contents().contains_key(k) <==> exists|i: int|
                0 <= i < s.index_view().len() && (#[trigger] s.index_view()[i]).0 == k,
{
    s.lemma_key_order();
    assert forall|i: int| 0 <= i < s.index_view().len() implies {
        let (k, pos, len) = #[trigger] s.index_view()[i];
        &&& s.contents().contains_key(k)
        &&& crate::codec::parse_record_at(s.log_view(), pos) == Some(
            (RecordView::Put { key: k, value: s.contents()[k] }, pos + len),
        )
    } by {
        assert(s.entry_ok(i));
        assert(s.key_order()[i] == s.index@[i].key@);
        let e = s.index@[i];
        lemma_parse_encoded(
            s.log@,
            e.pos.pos as int,
            RecordView::Put { key: e.key@, value: s.contents()[e.key@] },
        );
    }
    assert forall|k: Seq<char>|
        s.contents().contains_key(k) <==> exists|i: int|
            0 <= i < s.index_view().len() && (#[trigger] s.index_view()[i]).0 == k by {
        if s.contents().contains_key(k) {
            let j = choose|j: int| 0 <= j < s.key_order().len() && s.key_order()[j] == k;
            assert(s.index_view()[j].0 == k);
        }
        if exists|i: int| 0 <= i < s.index_view().len() && (#[trigger] s.index_view()[i]).0 == k {
            let j = choose|j: int| 0 <= j < s.index_view().len() && (#[trigger] s.index_view()[j]).0 == k;
            assert(s.key_order()[j] == k);
        }
    }
}

/// Compacting twice in a row leaves the same log and the same index as
/// compacting once.
pub proof fn lemma_compaction_idempotent(a: KvStore, b: KvStore, c: KvStore)
    requires
        b.compacted_from(a),
        c.compacted_from(b),
    ensures
        c.log_view() == b.log_view(),
        c.index_view() == b.index_view(),
        c.contents() == b.contents(),
{
    let ks = a.key_order();
    assert(c.index_view() =~= b.index_view()) by {
        assert forall|i: int| 0 <= i < b.index_view().len() implies c.index_view()[i]
            == b.index_view()[i] by {
            assert(b.key_order() == ks);
        }
    }
}

/// After a compaction the log is no longer than the records that the index
/// points at.
pub proof fn lemma_compacted_size(a: KvStore, b: KvStore)
    requires
        b.compacted_from(a),
    ensures
        b.log_view().len() <= b.live_bytes(),
        b.redundancy() == 0,
{
}

/// Whatever the first `remove(k)` returned, `k` is absent afterwards, so a
/// second `remove(k)` fails with `KeyNotFound`.
pub proof fn lemma_remove_twice(a: KvStore, b: KvStore, k: Seq<char>)
    requires
        (a.contents().contains_key(k) && b.contents() == a.contents().remove(k)) || (
        !a.contents().contains_key(k) && b == a),
    ensures
        !b.contents().contains_key(k),
{
}

/// Checks that `s` takes at most `max_len_in_bytes` bytes; `s_type` names
/// what `s` is, `"key"` or `"value"`, and picks the error.
pub fn check_length(s: &str, s_type: &str, max_len_in_bytes: usize) -> (r: Result<()>)
    requires
        s_type@ == "key"@ || s_type@ == "value"@,
    ensures
        r is Ok <==> byte_len(s@) <= max_len_in_bytes,
        r is Err && s_type@ == "key"@ ==> r matches Err(KvsError::InvalidKeySize),
        r is Err && s_type@ == "value"@ ==> r matches Err(KvsError::InvalidValueSize),
{
    proof {
        reveal_strlit("key");
        reveal_strlit("value");
    }
    let l = s.as_bytes().len();
    assert("key"@.len() != "value"@.len());
    if l <= max_len_in_bytes {
        Ok(())
    } else if str_eq(s_type, "key") {
        Err(KvsError::InvalidKeySize)
    } else {
        Err(KvsError::InvalidValueSize)
    }
}

/// Appends the bytes of `src` from `p` on, `l` of them.
fn copy_range(out: &mut Vec<u8>, src: &Vec<u8>, p: usize, l: usize)
    requires
        p + l <= src@.len(),
    ensures
        final(out)@ == old(out)@ + src@.subrange(p as int, p + l),
{
    let slen = src.len();
    let mut j: usize = 0;
    while j < l
        invariant
            slen == src@.len(),
            p + l <= src@.len(),
            j <= l,
            out@ == old(out)@ + src@.subrange(p as int, p + j),
        decreases l - j,
    {
        out.push(src[p + j]);
        assert(out@ =~= old(out)@ + src@.subrange(p as int, p + j + 1));
        j = j + 1;
    }
}

/// In the log of `Set` records for the keys `ks`, the record of the key at
/// `j` starts after the records of the keys before it.
proof fn lemma_put_layout(ks: Seq<Seq<char>>, m: Map<Seq<char>, Seq<char>>, j: int)
    requires
        0 <= j < ks.len(),
    ensures
        ({
            let full = log_of(put_records(ks, m));
            let start = log_of(put_records(ks.take(j), m)).len() as int;
            let rec = encode_record(RecordView::Put { key: ks[j], value: m[ks[j]] });
            start + rec.len() <= full.len() && full.subrange(start, start + rec.len()) == rec
        }),
{
    let rs = put_records(ks, m);
    let full = log_of(rs);
    let rec = RecordView::Put { key: ks[j], value: m[ks[j]] };
    lemma_log_prefix(rs, j + 1);
    assert(rs.take(j + 1) =~= put_records(ks.take(j + 1), m));
    assert(rs.take(j) =~= put_records(ks.take(j), m));
    assert(rs.take(j + 1).drop_last() =~= rs.take(j));
    assert(rs.take(j + 1).last() == rec);
    let pre = log_of(rs.take(j));
    let q = log_of(rs.take(j + 1)).len() as int;
    assert(log_of(rs.take(j + 1)) == pre + encode_record(rec));
    lemma_subrange_tail(full, q, pre, encode_record(rec));
}

} // verus!
