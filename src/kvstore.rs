//! The log-structured engine: an append-only log image, an index from each
//! key to its latest record, recovery by replay, and compaction.
use crate::codec::{
    decode_at, encode, encode_record, lemma_parse_length, lemma_parse_record_prefix, LogRecord,
    RecordModel,
};
use crate::common_struct::KVPair;
use crate::engine::{check_engine, lookup, opt_view, other_engine_present, DirState, EngineKind, KVEngine};
use crate::error::KVError;
use crate::log::{
    lemma_append, lemma_empty_log, lemma_record_at_appended, lemma_record_at_extend,
    lemma_replay_index_disjoint, lemma_truncate, live, log_complete, places_disjoint, record_at,
    replay, replay_from, replay_index, index_from, scan_end, History, Located,
};
use vstd::hash_map::StringHashMap;
use vstd::prelude::*;

verus! {

/// Bytes of stale records past which a write compacts the log.
pub const COMPACTION_THRESHOLD: usize = 1024;

/// Where the index finds the latest record of a key.
#[derive(Clone, Copy, Debug)]
pub struct KVEntry {
    /// The latest record removes the key.
    pub rm: bool,
    /// The record's length in bytes.
    pub len: usize,
    /// The record's offset in the log.
    pub pos: usize,
}

/// What the log image gained since the file behind it was last brought up
/// to date.
#[derive(Clone, Copy, Debug, PartialEq, Eq, Structural)]
pub enum LogSync {
    /// Nothing.
    InSync,
    /// Records were appended from this offset on.
    Appended { from: usize },
    /// The image was replaced: the file must be written anew.
    Rewritten,
}

/// The log-structured store.
pub struct KVStore {
    /// The log image: whole records, oldest first.
    log: Vec<u8>,
    /// For each key, where its latest record is.
    index: StringHashMap<KVEntry>,
    /// The keys of the index, each once, in the order they first came.
    keys: Vec<String>,
    /// Bytes of records that compaction would drop, counted since the
    /// last compaction.
    stale: usize,
    sync: LogSync,
    history: Ghost<History>,
}

/// The place that an index entry gives.
pub open spec fn entry_place(e: KVEntry) -> (bool, int, int) {
    (e.rm, e.pos as int, e.len as int)
}

/// The part of `a` whose keys hold a value.
pub open spec fn without_tombstones(a: History) -> History {
    Map::new(|k: Seq<char>| a.contains_key(k) && a[k] is Some, |k: Seq<char>| a[k])
}

/// The bytes that a place holds live: its length, unless it removes its key.
pub open spec fn live_weight(p: (bool, int, int)) -> int {
    if p.0 {
        0
    } else {
        p.2
    }
}

/// The bytes held live by the places of the keys `ks` in `g`.
pub open spec fn live_total(ks: Seq<Seq<char>>, g: Located) -> int
    decreases ks.len(),
{
    if ks.len() == 0 {
        0
    } else {
        live_total(ks.drop_last(), g) + live_weight(g[ks.last()])
    }
}

/// Changing the place of a key outside `ks` leaves the total alone.
proof fn lemma_live_total_other(ks: Seq<Seq<char>>, g: Located, k: Seq<char>, p: (bool, int, int))
    requires
        !ks.contains(k),
    ensures
        live_total(ks, g.insert(k, p)) == live_total(ks, g),
    decreases ks.len(),
{
    if ks.len() > 0 {
        assert(!ks.drop_last().contains(k)) by {
            if ks.drop_last().contains(k) {
                let j = choose|j: int| 0 <= j < ks.drop_last().len() && ks.drop_last()[j] == k;
                assert(ks[j] == k);
            }
        }
        assert(ks.last() != k) by {
            assert(ks[ks.len() - 1] == ks.last());
        }
        lemma_live_total_other(ks.drop_last(), g, k, p);
    }
}

/// Changing the place of a key that `ks` holds once changes the total by
/// the difference of the two weights.
proof fn lemma_live_total_update(ks: Seq<Seq<char>>, g: Located, k: Seq<char>, p: (bool, int, int))
    requires
        ks.no_duplicates(),
        ks.contains(k),
    ensures
        live_total(ks, g.insert(k, p)) == live_total(ks, g) - live_weight(g[k]) + live_weight(p),
    decreases ks.len(),
{
    let init = ks.drop_last();
    if ks.last() == k {
        assert(!init.contains(k)) by {
            if init.contains(k) {
                let j = choose|j: int| 0 <= j < init.len() && init[j] == k;
                assert(ks[j] == ks[ks.len() - 1]);
            }
        }
        lemma_live_total_other(init, g, k, p);
    } else {
        let j = choose|j: int| 0 <= j < ks.len() && ks[j] == k;
        assert(j != ks.len() - 1);
        assert(init[j] == k);
        assert(init.no_duplicates()) by {
            assert forall|a: int, b: int|
                0 <= a < init.len() && 0 <= b < init.len() && a != b implies init[a] != init[b] by {
                assert(ks[a] != ks[b]);
            }
        }
        lemma_live_total_update(init, g, k, p);
    }
}

/// The total is not negative where every place has a non-negative length.
proof fn lemma_live_total_nonneg(ks: Seq<Seq<char>>, g: Located)
    requires
        forall|k: Seq<char>| #[trigger] g.contains_key(k) ==> g[k].2 >= 0,
        forall|i: int| 0 <= i < ks.len() ==> g.contains_key(#[trigger] ks[i]),
    ensures
        live_total(ks, g) >= 0,
    decreases ks.len(),
{
    if ks.len() > 0 {
        assert(g.contains_key(ks[ks.len() - 1]));
        assert forall|i: int| 0 <= i < ks.drop_last().len() implies g.contains_key(
            #[trigger] ks.drop_last()[i],
        ) by {
            assert(ks.drop_last()[i] == ks[i]);
        }
        lemma_live_total_nonneg(ks.drop_last(), g);
    }
}

/// The views of a list of strings.
pub open spec fn key_views(keys: Seq<String>) -> Seq<Seq<char>> {
    keys.map_values(|s: String| s@)
}

/// A list of distinct strings that names exactly the keys of `has`.
proof fn lemma_key_list(keys: Seq<String>, has: Map<Seq<char>, KVEntry>)
    requires
        forall|i: int, j: int| 0 <= i < j < keys.len() ==> #[trigger] keys[i]@ != #[trigger] keys[j]@,
        forall|i: int| 0 <= i < keys.len() ==> has.contains_key(#[trigger] keys[i]@),
        forall|k: Seq<char>| #[trigger]
            has.contains_key(k) ==> exists|i: int| 0 <= i < keys.len() && #[trigger] keys[i]@ == k,
    ensures
        key_views(keys).no_duplicates(),
        forall|k: Seq<char>| #[trigger]
            key_views(keys).contains(k) <==> has.contains_key(k),
{
    let ks = key_views(keys);
    assert forall|a: int, b: int| 0 <= a < ks.len() && 0 <= b < ks.len() && a != b implies ks[a]
        != ks[b] by {
        if a < b {
            assert(keys[a]@ != keys[b]@);
        } else {
            assert(keys[b]@ != keys[a]@);
        }
    }
    assert forall|k: Seq<char>| #[trigger] ks.contains(k) <==> has.contains_key(k) by {
        if ks.contains(k) {
            let i = choose|i: int| 0 <= i < ks.len() && ks[i] == k;
            assert(has.contains_key(keys[i]@));
        }
        if has.contains_key(k) {
            let i = choose|i: int| 0 <= i < keys.len() && #[trigger] keys[i]@ == k;
            assert(ks[i] == k);
        }
    }
}

impl View for KVStore {
    type V = Map<Seq<char>, Seq<char>>;

    /// The keys that hold a value, with their values.
    open spec fn view(&self) -> Map<Seq<char>, Seq<char>> {
        live(self.history())
    }
}

impl KVStore {
    /// What each key was last set to: a value, or `None` after a removal.
    pub closed spec fn history(&self) -> History {
        self.history@
    }

    /// The bytes of the log image.
    pub closed spec fn log_view(&self) -> Seq<u8> {
        self.log@
    }

    /// What the log image gained since the file behind it was synced.
    pub closed spec fn sync_state(&self) -> LogSync {
        self.sync
    }

    /// The index entry of `k`, if the index has one.
    pub closed spec fn index_entry(&self, k: Seq<char>) -> Option<KVEntry> {
        if self.index@.contains_key(k) {
            Some(self.index@[k])
        } else {
            None
        }
    }

    /// Each indexed key with the place of its entry: whether it removes the
    /// key, its offset and its length.
    pub closed spec fn index_places(&self) -> Located {
        Map::new(
            |k: Seq<char>| self.index@.contains_key(k),
            |k: Seq<char>| entry_place(self.index@[k]),
        )
    }

    /// The indexed keys, in the order they first came.
    pub closed spec fn key_seq(&self) -> Seq<Seq<char>> {
        key_views(self.keys@)
    }

    /// The bytes of the log that no longer hold the live value of their
    /// key: overwritten values, and every removal record.
    pub closed spec fn stale_bytes(&self) -> int {
        self.log@.len() - live_total(self.key_seq(), self.index_places())
    }

    /// The list of keys holds each indexed key once.
    proof fn lemma_key_seq(&self)
        requires
            self.keys_ok(),
        ensures
            self.key_seq().no_duplicates(),
            forall|k: Seq<char>| #[trigger] self.key_seq().contains(k) <==> self.index@.contains_key(k),
            forall|i: int|
                0 <= i < self.key_seq().len() ==> self.index_places().contains_key(
                    #[trigger] self.key_seq()[i],
                ),
            forall|k: Seq<char>| #[trigger]
                self.index_places().contains_key(k) ==> self.index_places()[k].2 >= 0,
    {
        let ks = self.key_seq();
        assert forall|a: int, b: int| 0 <= a < ks.len() && 0 <= b < ks.len() && a != b implies ks[a]
            != ks[b] by {
            if a < b {
                assert(self.keys@[a]@ != self.keys@[b]@);
            } else {
                assert(self.keys@[b]@ != self.keys@[a]@);
            }
        }
        assert forall|k: Seq<char>| #[trigger] ks.contains(k) <==> self.index@.contains_key(k) by {
            if ks.contains(k) {
                let i = choose|i: int| 0 <= i < ks.len() && ks[i] == k;
                assert(self.index@.contains_key(self.keys@[i]@));
            }
            if self.index@.contains_key(k) {
                let i = choose|i: int| 0 <= i < self.keys@.len() && #[trigger] self.keys@[i]@ == k;
                assert(ks[i] == k);
            }
        }
        assert forall|i: int| 0 <= i < ks.len() implies self.index_places().contains_key(
            #[trigger] ks[i],
        ) by {
            assert(self.index@.contains_key(self.keys@[i]@));
        }
    }

    /// The stale count leaves room for the live bytes of any indexed key.
    proof fn lemma_stale_room(&self, k: Seq<char>)
        requires
            self.wf(),
            self.index@.contains_key(k),
        ensures
            self.stale + live_weight(entry_place(self.index@[k])) <= self.log@.len(),
    {
        self.lemma_key_seq();
        let ks = self.key_seq();
        let g = self.index_places();
        let dead = (true, 0int, 0int);
        lemma_live_total_update(ks, g, k, dead);
        assert forall|i: int| 0 <= i < ks.len() implies g.insert(k, dead).contains_key(
            #[trigger] ks[i],
        ) by {}
        lemma_live_total_nonneg(ks, g.insert(k, dead));
    }

    /// The index entry of `k` locates the latest record of `k`.
    closed spec fn entry_ok(&self, k: Seq<char>) -> bool {
        let e = self.index@[k];
        &&& e.rm == (self.history@[k] is None)
        &&& record_at(self.log@, e.pos as int) == Some(
            (RecordModel { key: k, value: self.history@[k] }, e.len as int),
        )
    }

    /// The list of keys holds each key of the index once.
    closed spec fn keys_ok(&self) -> bool {
        &&& forall|i: int, j: int|
            0 <= i < j < self.keys@.len() ==> #[trigger] self.keys@[i]@ != #[trigger] self.keys@[j]@
        &&& forall|i: int|
            0 <= i < self.keys@.len() ==> self.index@.contains_key(#[trigger] self.keys@[i]@)
        &&& forall|k: Seq<char>|
            #[trigger] self.index@.contains_key(k) ==> exists|i: int|
                0 <= i < self.keys@.len() && #[trigger] self.keys@[i]@ == k
    }

    /// The store's invariant: the log is whole records, replaying it gives
    /// the history, and the index locates the latest record of each key.
    pub closed spec fn wf(&self) -> bool {
        &&& log_complete(self.log@)
        &&& replay(self.log@) == self.history@
        &&& self.index@.dom() == self.history@.dom()
        &&& forall|k: Seq<char>| #[trigger] self.index@.contains_key(k) ==> self.entry_ok(k)
        &&& self.index_places() == replay_index(self.log@)
        &&& self.keys_ok()
        &&& self.stale as int == self.stale_bytes()
        &&& (self.sync matches LogSync::Appended { from } ==> from <= self.log@.len()
            && log_complete(self.log@.subrange(0, from as int)))
    }

    /// An empty store, with an empty log.
    pub fn new() -> (r: KVStore)
        ensures
            r.wf(),
            r.history() == Map::<Seq<char>, Option<Seq<char>>>::empty(),
            r@ == Map::<Seq<char>, Seq<char>>::empty(),
            r.log_view() == Seq::<u8>::empty(),
            r.sync_state() == LogSync::InSync,
    {
        proof {
            lemma_empty_log();
        }
        let r = KVStore {
            log: Vec::new(),
            index: StringHashMap::new(),
            keys: Vec::new(),
            stale: 0,
            sync: LogSync::InSync,
            history: Ghost(Map::empty()),
        };
        assert(r@ =~= Map::<Seq<char>, Seq<char>>::empty());
        assert(r.index_places() =~= replay_index(r.log@));
        r
    }

    /// The bytes of the log image.
    pub fn log_bytes(&self) -> (r: &Vec<u8>)
        ensures
            r@ == self.log_view(),
    {
        &self.log
    }

    /// What the log image gained since the file behind it was last synced.
    pub fn pending_sync(&self) -> (r: LogSync)
        ensures
            r == self.sync_state(),
    {
        self.sync
    }

    /// Records that the file behind the log image now holds all of it.
    pub fn mark_synced(&mut self)
        requires
            old(self).wf(),
        ensures
            final(self).wf(),
            final(self).sync_state() == LogSync::InSync,
            final(self).history() == old(self).history(),
            final(self).log_view() == old(self).log_view(),
            forall|k: Seq<char>| #[trigger] final(self).index_entry(k) == old(self).index_entry(k),
            final(self)@ == old(self)@,
    {
        let ghost before = *self;
        self.sync = LogSync::InSync;
        proof {
            assert(self.keys@ == before.keys@);
            assert(before.keys_ok());
        }
    }

    /// Appends the bytes of `rec` to the log and records the change.
    fn append(&mut self, rec: &LogRecord) -> (r: (usize, usize))
        requires
            old(self).wf(),
        ensures
            final(self).log@ == old(self).log@ + encode_record(rec@),
            r.0 == old(self).log@.len(),
            r.1 == encode_record(rec@).len(),
            log_complete(final(self).log@),
            replay(final(self).log@) == old(self).history@.insert(rec@.key, rec@.value),
            replay_index(final(self).log@) == replay_index(old(self).log@).insert(
                rec@.key,
                (rec@.value is None, old(self).log@.len() as int, encode_record(rec@).len() as int),
            ),
            record_at(final(self).log@, r.0 as int) == Some((rec@, r.1 as int)),
            forall|p: int|
                record_at(old(self).log@, p) is Some ==> record_at(final(self).log@, p)
                    == record_at(old(self).log@, p),
            final(self).index == old(self).index,
            final(self).keys == old(self).keys,
            final(self).stale == old(self).stale,
            final(self).history == old(self).history,
            final(self).sync == appended_sync(*old(self)),
            final(self).sync matches LogSync::Appended { from } ==> from <= final(self).log@.len()
                && log_complete(final(self).log@.subrange(0, from as int)),
    {
        let mut bytes = encode(rec);
        let pos = self.log.len();
        let len = bytes.len();
        let ghost before = self.log@;
        proof {
            lemma_append(before, rec@);
            lemma_record_at_appended(before, rec@);
            assert forall|p: int| record_at(before, p) is Some implies record_at(
                before + bytes@,
                p,
            ) == record_at(before, p) by {
                lemma_record_at_extend(before, bytes@, p);
            }
        }
        self.log.append(&mut bytes);
        proof {
            assert(self.log@.subrange(0, before.len() as int) =~= before);
            if let LogSync::Appended { from } = self.sync {
                assert(self.log@.subrange(0, from as int) =~= before.subrange(0, from as int));
            }
        }
        if self.sync == LogSync::InSync {
            self.sync = LogSync::Appended { from: pos };
        }
        (pos, len)
    }

    /// The entry of `key` in the index, if any.
    fn entry(&self, key: &String) -> (r: Option<KVEntry>)
        requires
            self.wf(),
        ensures
            r is Some <==> self.history@.contains_key(key@),
            r matches Some(e) ==> e == self.index@[key@] && self.entry_ok(key@),
    {
        match self.index.get(key.as_str()) {
            Some(e) => Some(*e),
            None => None,
        }
    }

    /// Puts `e` in the index for `key`, after its record was appended.
    proof fn lemma_index_updated(
        before: &KVStore,
        after: &KVStore,
        key: Seq<char>,
        value: Option<Seq<char>>,
        e: KVEntry,
    )
        requires
            before.wf(),
            after.log@ == before.log@ + encode_record(RecordModel { key, value }),
            log_complete(after.log@),
            replay(after.log@) == after.history@,
            after.history@ == before.history@.insert(key, value),
            after.index@ == before.index@.insert(key, e),
            e.rm == (value is None),
            record_at(after.log@, e.pos as int) == Some((RecordModel { key, value }, e.len as int)),
            replay_index(after.log@) == replay_index(before.log@).insert(key, entry_place(e)),
            e.len == encode_record(RecordModel { key, value }).len(),
            after.stale as int == before.stale as int + (if before.index@.contains_key(key) {
                live_weight(entry_place(before.index@[key]))
            } else {
                0
            }) + e.len - live_weight(entry_place(e)),
            forall|p: int|
                record_at(before.log@, p) is Some ==> record_at(after.log@, p) == record_at(
                    before.log@,
                    p,
                ),
            before.index@.contains_key(key) ==> after.keys@ == before.keys@,
            !before.index@.contains_key(key) ==> after.keys@ == before.keys@.push(
                after.keys@.last(),
            ) && after.keys@.last()@ == key,
            after.sync matches LogSync::Appended { from } ==> from <= after.log@.len()
                && log_complete(after.log@.subrange(0, from as int)),
        ensures
            after.wf(),
    {
        assert(after.index@.dom() =~= after.history@.dom());
        assert(after.index_places() =~= before.index_places().insert(key, entry_place(e)));
        before.lemma_key_seq();
        let ks = before.key_seq();
        let g = before.index_places();
        if before.index@.contains_key(key) {
            assert(after.key_seq() =~= ks);
            lemma_live_total_update(ks, g, key, entry_place(e));
        } else {
            assert(after.key_seq() =~= ks.push(key));
            assert(after.key_seq().drop_last() =~= ks);
            lemma_live_total_other(ks, g, key, entry_place(e));
        }
        assert(after.stale as int == after.stale_bytes());
        assert forall|k: Seq<char>| #[trigger] after.index@.contains_key(k) implies after.entry_ok(
            k,
        ) by {
            if k != key {
                assert(before.entry_ok(k));
            }
        }
        if before.index@.contains_key(key) {
            assert forall|k: Seq<char>| #[trigger] after.index@.contains_key(k) implies exists|i: int|
                0 <= i < after.keys@.len() && #[trigger] after.keys@[i]@ == k by {
                if k != key {
                    assert(before.index@.contains_key(k));
                }
            }
        } else {
            let n = before.keys@.len() as int;
            assert forall|i: int, j: int|
                0 <= i < j < after.keys@.len() implies #[trigger] after.keys@[i]@
                != #[trigger] after.keys@[j]@ by {
                if j == n {
                    assert(before.index@.contains_key(before.keys@[i]@));
                } else {
                    assert(before.keys@[i]@ != before.keys@[j]@);
                }
            }
            assert forall|i: int|
                0 <= i < after.keys@.len() implies after.index@.contains_key(
                #[trigger] after.keys@[i]@,
            ) by {
                if i < n {
                    assert(before.index@.contains_key(before.keys@[i]@));
                }
            }
            assert forall|k: Seq<char>| #[trigger] after.index@.contains_key(k) implies exists|i: int|
                0 <= i < after.keys@.len() && #[trigger] after.keys@[i]@ == k by {
                if k != key {
                    assert(before.index@.contains_key(k));
                    let i = choose|i: int| 0 <= i < before.keys@.len() && #[trigger] before.keys@[i]@ == k;
                    assert(after.keys@[i]@ == k);
                } else {
                    assert(after.keys@[n]@ == k);
                }
            }
        }
    }

    /// Appends a record that sets `key` to `value`, and indexes it.
    fn put(&mut self, key: String, value: String)
        requires
            old(self).wf(),
        ensures
            appended(*old(self), *final(self), RecordModel { key: key@, value: Some(value@) }),
            final(self).stale_bytes() == stale_after_set(*old(self), key@),
    {
        let ghost before = *self;
        let old_entry = self.entry(&key);
        let rec = LogRecord::Put(KVPair::new(key.clone(), value));
        proof {
            if before.index@.contains_key(key@) {
                before.lemma_stale_room(key@);
            }
        }
        let (pos, len) = self.append(&rec);
        let total = self.log.len();
        match old_entry {
            Some(e) => {
                if !e.rm {
                    self.stale = self.stale + e.len;
                }
            },
            None => {
                self.keys.push(key.clone());
            },
        }
        let entry = KVEntry { rm: false, len, pos };
        self.index.insert(key, entry);
        self.history = Ghost(self.history@.insert(rec@.key, rec@.value));
        proof {
            KVStore::lemma_index_updated(&before, self, rec@.key, rec@.value, entry);
            assert(self.index@ == before.index@.insert(rec@.key, entry));
            assert(self.index_entry(rec@.key) == Some(entry));
            assert(forall|k: Seq<char>|
                k != rec@.key ==> #[trigger] self.index_entry(k) == before.index_entry(k));
        }
    }

    /// Appends a record that removes `key`, and marks its entry.
    fn put_tombstone(&mut self, key: String, live_len: usize)
        requires
            old(self).wf(),
            old(self).index@.contains_key(key@),
            !old(self).index@[key@].rm,
            old(self).index@[key@].len == live_len,
        ensures
            appended(*old(self), *final(self), RecordModel { key: key@, value: None }),
            final(self).stale_bytes() == stale_after_remove(*old(self), key@),
    {
        let ghost before = *self;
        let rec = LogRecord::Remove(key.clone());
        proof {
            before.lemma_stale_room(key@);
        }
        let (pos, len) = self.append(&rec);
        let total = self.log.len();
        self.stale = self.stale + live_len + len;
        let entry = KVEntry { rm: true, len, pos };
        self.index.insert(key, entry);
        self.history = Ghost(self.history@.insert(rec@.key, rec@.value));
        proof {
            KVStore::lemma_index_updated(&before, self, rec@.key, rec@.value, entry);
            assert(self.index@ == before.index@.insert(rec@.key, entry));
            assert(self.index_entry(rec@.key) == Some(entry));
            assert(forall|k: Seq<char>|
                k != rec@.key ==> #[trigger] self.index_entry(k) == before.index_entry(k));
        }
    }

    /// Drops the records appended since the file was last synced, where
    /// that is all the file lacks: the store returns to what replaying the
    /// synced part of its log gives. A store whose image was rewritten is
    /// returned as it is; the file itself then holds the state to go back to.
    pub fn discard_pending(self) -> (r: KVStore)
        requires
            self.wf(),
        ensures
            match self.sync_state() {
                LogSync::Appended { from } => {
                    &&& recovered_from(self.log_view().subrange(0, from as int), r)
                    &&& r.log_view() == self.log_view().subrange(0, from as int)
                    &&& r.sync_state() == LogSync::InSync
                },
                _ => r == self,
            },
    {
        match self.sync {
            LogSync::Appended { from } => {
                let ghost prefix = self.log@.subrange(0, from as int);
                let KVStore { mut log, .. } = self;
                log.truncate(from);
                let r = KVStore::recover(log);
                assert(prefix.subrange(0, prefix.len() as int) =~= prefix);
                r
            },
            _ => self,
        }
    }

    /// The value of the record at `pos`, `len` bytes long, in the log.
    fn read_at(&self, pos: usize, len: usize) -> (r: Option<String>)
        requires
            pos <= self.log@.len(),
        ensures
            ({
                let at = record_at(self.log@, pos as int);
                at is Some && at->Some_0.1 == len && at->Some_0.0.value is Some ==> r is Some
                    && r->Some_0@ == at->Some_0.0.value->Some_0
            }),
    {
        match decode_at(&self.log, pos) {
            Some((LogRecord::Put(pair), n)) => {
                if n == len {
                    Some(pair.val)
                } else {
                    None
                }
            },
            _ => None,
        }
    }

    /// The value under `key`; `None` where it holds none.
    pub fn get(&self, key: String) -> (r: Result<Option<String>, KVError>)
        requires
            self.wf(),
        ensures
            r matches Ok(o) && opt_view(o) == lookup(self@, key@),
    {
        match self.entry(&key) {
            None => Ok(None),
            Some(e) => {
                if e.rm {
                    Ok(None)
                } else {
                    match self.read_at(e.pos, e.len) {
                        Some(v) => Ok(Some(v)),
                        None => Err(KVError::ReadLog),
                    }
                }
            },
        }
    }

    /// Compacts the log once enough of it is stale.
    fn maybe_compact(&mut self)
        requires
            old(self).wf(),
        ensures
            if old(self).stale_bytes() <= COMPACTION_THRESHOLD {
                *final(self) == *old(self)
            } else {
                compacted(*old(self), *final(self))
            },
    {
        if self.stale > COMPACTION_THRESHOLD {
            self.compaction();
        }
    }

    /// Stores `value` under `key`, over any earlier value.
    pub fn set(&mut self, key: String, value: String) -> (r: Result<(), KVError>)
        requires
            old(self).wf(),
        ensures
            r is Ok,
            set_done(*old(self), *final(self), key@, value@),
    {
        let ghost k = key@;
        let ghost v = value@;
        self.put(key, value);
        proof {
            assert(live(old(self).history().insert(k, Some(v))) =~= old(self)@.insert(k, v));
        }
        self.maybe_compact();
        Ok(())
    }

    /// Removes `key`; fails with `KeyNotFound`, changing nothing, where it
    /// holds no value.
    pub fn remove(&mut self, key: String) -> (r: Result<(), KVError>)
        requires
            old(self).wf(),
        ensures
            r is Err <==> !old(self)@.contains_key(key@),
            r is Err ==> r == Err::<(), KVError>(KVError::KeyNotFound) && *final(self) == *old(
                self,
            ),
            r is Ok ==> remove_done(*old(self), *final(self), key@),
    {
        match self.entry(&key) {
            None => Err(KVError::KeyNotFound),
            Some(e) => {
                if e.rm {
                    Err(KVError::KeyNotFound)
                } else {
                    let ghost k = key@;
                    self.put_tombstone(key, e.len);
                    proof {
                        assert(live(old(self).history().insert(k, None)) =~= old(self)@.remove(k));
                    }
                    self.maybe_compact();
                    Ok(())
                }
            },
        }
    }

    /// Rewrites the log with one record for each key that holds a value,
    /// and rebuilds the index from it; removed keys are forgotten.
    pub fn compaction(&mut self)
        requires
            old(self).wf(),
        ensures
            compacted(*old(self), *final(self)),
    {
        let mut fresh = KVStore::new();
        let mut i: usize = 0;
        let ghost mut order: Seq<Seq<char>> = Seq::empty();
        assert(fresh.log@ =~= value_records(order, self@));
        while i < self.keys.len()
            invariant
                *self == *old(self),
                self.wf(),
                fresh.wf(),
                fresh.log@ == value_records(order, self@),
                order.no_duplicates(),
                forall|k: Seq<char>| #[trigger] order.contains(k) <==> fresh.history@.contains_key(k),
                fresh.sync != LogSync::Rewritten,
                fresh.stale_bytes() == 0,
                fresh.log@.len() == live_total(self.key_seq().take(i as int), self.index_places()),
                0 <= i <= self.keys@.len(),
                forall|k: Seq<char>|
                    #[trigger] fresh.history@.contains_key(k) <==> (self.history@.contains_key(k)
                        && self.history@[k] is Some && exists|j: int|
                        0 <= j < i && #[trigger] self.keys@[j]@ == k),
                forall|k: Seq<char>|
                    #[trigger] fresh.history@.contains_key(k) ==> fresh.history@[k]
                        == self.history@[k],
            decreases self.keys@.len() - i,
        {
            let key = &self.keys[i];
            let ghost k = key@;
            assert(self.index@.contains_key(k));
            match self.entry(key) {
                Some(e) => {
                    if !e.rm {
                        match self.read_at(e.pos, e.len) {
                            Some(v) => {
                                proof {
                                    assert(!fresh.history@.contains_key(k)) by {
                                        if fresh.history@.contains_key(k) {
                                            let j = choose|j: int|
                                                0 <= j < i && #[trigger] self.keys@[j]@ == k;
                                            assert(self.keys@[j]@ != self.keys@[i as int]@);
                                        }
                                    }
                                }
                                let ghost before_order = order;
                                proof {
                                    let sub = self.log@.subrange(e.pos as int, self.log@.len() as int);
                                    assert(self.entry_ok(k));
                                    lemma_parse_length(sub);
                                }
                                fresh.put(key.clone(), v);
                                proof {
                                    order = order.push(k);
                                    assert(order.drop_last() =~= before_order);
                                    assert(v@ == self@[k]);
                                    assert(fresh.log@ == value_records(order, self@));
                                    assert forall|k2: Seq<char>|
                                        #[trigger] order.contains(k2) <==> fresh.history@.contains_key(
                                        k2,
                                    ) by {
                                        if k2 == k {
                                            assert(order[order.len() - 1] == k);
                                        } else {
                                            if order.contains(k2) {
                                                let j = choose|j: int|
                                                    0 <= j < order.len() && order[j] == k2;
                                                assert(before_order[j] == k2);
                                                assert(before_order.contains(k2));
                                            }
                                            if before_order.contains(k2) {
                                                let j = choose|j: int|
                                                    0 <= j < before_order.len() && before_order[j]
                                                        == k2;
                                                assert(order[j] == k2);
                                            }
                                        }
                                    }
                                    assert(order.no_duplicates()) by {
                                        assert forall|a: int, b: int|
                                            0 <= a < order.len() && 0 <= b < order.len() && a != b
                                            implies order[a] != order[b] by {
                                            if a == order.len() - 1 {
                                                assert(before_order.contains(order[b]));
                                            } else if b == order.len() - 1 {
                                                assert(before_order.contains(order[a]));
                                            }
                                        }
                                    }
                                }
                            },
                            None => {},
                        }
                    }
                },
                None => {},
            }
            proof {
                assert forall|k2: Seq<char>|
                    #[trigger] fresh.history@.contains_key(k2) <==> (self.history@.contains_key(k2)
                        && self.history@[k2] is Some && exists|j: int|
                        0 <= j < i + 1 && #[trigger] self.keys@[j]@ == k2) by {
                    if k2 != k {
                        if exists|j: int| 0 <= j < i + 1 && #[trigger] self.keys@[j]@ == k2 {
                            let j = choose|j: int| 0 <= j < i + 1 && #[trigger] self.keys@[j]@ == k2;
                            assert(j < i);
                        }
                    } else {
                        assert(self.keys@[i as int]@ == k2);
                    }
                }
            }
            proof {
                let ks = self.key_seq();
                assert(ks.take(i + 1).drop_last() =~= ks.take(i as int));
                assert(ks.take(i + 1).last() == k);
                assert(self.index_places()[k] == entry_place(self.index@[k]));
            }
            i = i + 1;
        }
        proof {
            assert forall|k: Seq<char>| #[trigger] self.history@.contains_key(k) implies exists|
                j: int,
            | 0 <= j < i && #[trigger] self.keys@[j]@ == k by {
                assert(self.index@.contains_key(k));
            }
            assert(fresh.history@ =~= without_tombstones(self.history@));
            assert(fresh@ =~= self@);
            assert forall|k: Seq<char>| #[trigger] order.contains(k) <==> self@.contains_key(k) by {
            }
        }
        proof {
            assert(self.key_seq().take(i as int) =~= self.key_seq());
        }
        let ghost done = fresh;
        *self = fresh;
        self.sync = LogSync::Rewritten;
        proof {
            assert(self.keys@ == done.keys@);
            assert(done.keys_ok());
            assert(self.wf());
            assert(self.log@ == value_records(order, old(self)@));
            assert(compact_image(self.log@, old(self)@));
        }
    }

    /// Rebuilds a store from the bytes of a log: the records are replayed
    /// in order, and the scan stops at the first place that does not hold a
    /// whole record; what follows is dropped from the image.
    pub fn recover(log: Vec<u8>) -> (r: KVStore)
        ensures
            recovered_from(log@, r),
    {
        let mut log = log;
        let ghost bytes = log@;
        let mut index: StringHashMap<KVEntry> = StringHashMap::new();
        let mut keys: Vec<String> = Vec::new();
        let mut stale: usize = 0;
        let ghost mut h: History = Map::empty();
        let ghost mut g: Located = Map::empty();
        let mut pos: usize = 0;
        let total = log.len();
        loop
            invariant
                log@ == bytes,
                index_from(bytes, pos as int, g) == replay_index(bytes),
                forall|k: Seq<char>| #[trigger] g.contains_key(k) <==> index@.contains_key(k),
                forall|k: Seq<char>| #[trigger]
                    index@.contains_key(k) ==> g[k] == entry_place(index@[k]),
                stale as int == pos as int - live_total(key_views(keys@), g),
                bytes.len() == total,
                0 <= pos <= bytes.len(),
                scan_end(bytes, pos as int) == scan_end(bytes, 0),
                replay_from(bytes, pos as int, h) == replay(bytes),
                index@.dom() == h.dom(),
                forall|k: Seq<char>| #[trigger]
                    index@.contains_key(k) ==> {
                        let e = index@[k];
                        &&& e.rm == (h[k] is None)
                        &&& e.pos + e.len <= pos
                        &&& record_at(bytes, e.pos as int) == Some(
                            (RecordModel { key: k, value: h[k] }, e.len as int),
                        )
                    },
                forall|i: int, j: int|
                    0 <= i < j < keys@.len() ==> #[trigger] keys@[i]@ != #[trigger] keys@[j]@,
                forall|i: int| 0 <= i < keys@.len() ==> index@.contains_key(#[trigger] keys@[i]@),
                forall|k: Seq<char>| #[trigger]
                    index@.contains_key(k) ==> exists|i: int|
                        0 <= i < keys@.len() && #[trigger] keys@[i]@ == k,
            ensures
                record_at(bytes, pos as int) is None,
            decreases bytes.len() - pos,
        {
            match decode_at(&log, pos) {
                None => {
                    break ;
                },
                Some((rec, n)) => {
                    let ghost s = bytes.subrange(pos as int, bytes.len() as int);
                    proof {
                        lemma_parse_record_prefix(s, s);
                        assert(record_at(bytes, pos as int) == Some((rec@, n as int)));
                        assert(n as int <= bytes.len() - pos);
                    }
                    let ghost m = rec@;
                    let key = match &rec {
                        LogRecord::Put(p) => p.key.clone(),
                        LogRecord::Remove(k) => k.clone(),
                    };
                    let rm = match &rec {
                        LogRecord::Put(_) => false,
                        LogRecord::Remove(_) => true,
                    };
                    let old_live: usize = match index.get(key.as_str()) {
                        Some(e) => if e.rm {
                            0
                        } else {
                            e.len
                        },
                        None => 0,
                    };
                    let ghost ks0 = key_views(keys@);
                    let ghost g0 = g;
                    let ghost had = index@.contains_key(key@);
                    proof {
                        lemma_key_list(keys@, index@);
                    }
                    match index.get(key.as_str()) {
                        Some(_) => {},
                        None => {
                            let ghost before_keys = keys@;
                            keys.push(key.clone());
                            proof {
                                let last = keys@.len() - 1;
                                assert forall|i: int, j: int|
                                    0 <= i < j < keys@.len() implies #[trigger] keys@[i]@
                                    != #[trigger] keys@[j]@ by {
                                    if j == last {
                                        assert(index@.contains_key(before_keys[i]@));
                                    } else {
                                        assert(before_keys[i]@ != before_keys[j]@);
                                    }
                                }
                                assert forall|k: Seq<char>| #[trigger]
                                    index@.contains_key(k) implies exists|i: int|
                                        0 <= i < keys@.len() && #[trigger] keys@[i]@ == k by {
                                    let i = choose|i: int|
                                        0 <= i < before_keys.len() && #[trigger] before_keys[i]@
                                            == k;
                                    assert(keys@[i]@ == k);
                                }
                            }
                        },
                    }
                    let ghost old_index = index@;
                    index.insert(key, KVEntry { rm, len: n, pos });
                    proof {
                        assert(index_from(bytes, pos as int, g) == index_from(
                            bytes,
                            pos + n,
                            g.insert(m.key, (m.value is None, pos as int, n as int)),
                        ));
                        g = g.insert(m.key, (m.value is None, pos as int, n as int));
                        h = h.insert(m.key, m.value);
                        assert forall|k: Seq<char>| #[trigger]
                            index@.contains_key(k) implies exists|i: int|
                                0 <= i < keys@.len() && #[trigger] keys@[i]@ == k by {
                            if k != m.key {
                                assert(old_index.contains_key(k));
                            } else {
                                let last = keys@.len() - 1;
                                if !old_index.contains_key(k) {
                                    assert(keys@[last]@ == k);
                                }
                            }
                        }
                        assert forall|i: int|
                            0 <= i < keys@.len() implies index@.contains_key(
                            #[trigger] keys@[i]@,
                        ) by {
                            if keys@[i]@ != m.key {
                                if i < keys@.len() - 1 || old_index.contains_key(m.key) {
                                    assert(old_index.contains_key(keys@[i]@));
                                }
                            }
                        }
                    }
                    proof {
                        let p = (m.value is None, pos as int, n as int);
                        let ks = key_views(keys@);
                        assert(g == g0.insert(m.key, p));
                        if had {
                            assert(ks =~= ks0);
                            assert(g0[m.key] == entry_place(old_index[m.key]));
                            lemma_live_total_update(ks0, g0, m.key, p);
                        } else {
                            assert(ks =~= ks0.push(m.key));
                            assert(ks.drop_last() =~= ks0);
                            lemma_live_total_other(ks0, g0, m.key, p);
                        }
                        assert forall|i: int| 0 <= i < ks.len() implies g.contains_key(
                            #[trigger] ks[i],
                        ) by {
                            assert(index@.contains_key(keys@[i]@));
                        }
                        assert forall|k: Seq<char>| #[trigger] g.contains_key(k) implies g[k].2
                            >= 0 by {
                            assert(index@.contains_key(k));
                        }
                        lemma_live_total_nonneg(ks, g);
                    }
                    let gained: usize = if rm {
                        n
                    } else {
                        0
                    };
                    stale = stale + old_live + gained;
                    pos = pos + n;
                },
            }
        }
        let ghost end = pos as int;
        proof {
            assert(scan_end(bytes, end) == end);
            lemma_truncate(bytes);
        }
        let full = log.len();
        log.truncate(pos);
        let ghost cut = log@;
        proof {
            assert forall|k: Seq<char>| #[trigger] index@.contains_key(k) implies record_at(
                cut,
                index@[k].pos as int,
            ) == record_at(bytes, index@[k].pos as int) by {
                let e = index@[k];
                let s = bytes.subrange(e.pos as int, bytes.len() as int);
                let t = cut.subrange(e.pos as int, cut.len() as int);
                lemma_parse_record_prefix(s, s);
                assert(t.subrange(0, e.len as int) =~= s.subrange(0, e.len as int));
                lemma_parse_record_prefix(s, t);
            }
        }
        let sync = if pos < full {
            LogSync::Rewritten
        } else {
            LogSync::InSync
        };
        let r = KVStore { log, index, keys, stale, sync, history: Ghost(h) };
        assert(replay_from(bytes, end, h) == h);
        assert(index_from(bytes, end, g) == g);
        assert(r.index_places() =~= g);
        assert(r.index@.dom() =~= r.history@.dom());
        assert(forall|k: Seq<char>| #[trigger] r.index@.contains_key(k) ==> r.entry_ok(k));
        assert(r.keys@ == keys@);
        assert(r.index@ == index@);
        assert(r.keys_ok());
        assert(r.key_seq() == key_views(keys@));
        r
    }

    /// Opens the store of a data directory from the bytes of its log file;
    /// refused where the directory holds the other engine's files.
    pub fn open(dir: DirState, log: Vec<u8>) -> (r: Result<KVStore, KVError>)
        ensures
            r is Err <==> other_engine_present(EngineKind::Kvs, dir),
            r is Err ==> r matches Err(KVError::WrongEngine),
            r matches Ok(s) ==> recovered_from(log@, s),
    {
        match check_engine(EngineKind::Kvs, dir) {
            Err(e) => Err(e),
            Ok(()) => Ok(KVStore::recover(log)),
        }
    }
}

/// The records that set each key of `ks`, in that order, to its value in `m`.
pub open spec fn value_records(ks: Seq<Seq<char>>, m: Map<Seq<char>, Seq<char>>) -> Seq<u8>
    decreases ks.len(),
{
    if ks.len() == 0 {
        Seq::empty()
    } else {
        value_records(ks.drop_last(), m) + encode_record(
            RecordModel { key: ks.last(), value: Some(m[ks.last()]) },
        )
    }
}

/// `log` is one value record for each key of `m`, in some order, and
/// nothing else.
pub open spec fn compact_image(log: Seq<u8>, m: Map<Seq<char>, Seq<char>>) -> bool {
    exists|ks: Seq<Seq<char>>|
        #![trigger value_records(ks, m)]
        ks.no_duplicates() && (forall|k: Seq<char>| #[trigger] ks.contains(k) <==> m.contains_key(k))
            && log == value_records(ks, m)
}

/// The sync state after a record is appended to the image of `before`.
pub open spec fn appended_sync(before: KVStore) -> LogSync {
    match before.sync_state() {
        LogSync::InSync => LogSync::Appended { from: before.log_view().len() as usize },
        other => other,
    }
}

/// `after` is `before` with the record `rec` appended to its image and
/// indexed at the old end of the image.
pub open spec fn appended(before: KVStore, after: KVStore, rec: RecordModel) -> bool {
    &&& after.wf()
    &&& after.history() == before.history().insert(rec.key, rec.value)
    &&& after.log_view() == before.log_view() + encode_record(rec)
    &&& after.sync_state() == appended_sync(before)
    &&& after.index_entry(rec.key) == Some(
        KVEntry {
            rm: rec.value is None,
            pos: before.log_view().len() as usize,
            len: encode_record(rec).len() as usize,
        },
    )
    &&& forall|k: Seq<char>| k != rec.key ==> #[trigger] after.index_entry(k) == before.index_entry(k)
}

/// The stale bytes once `set(key, _)` has appended its record: the old
/// count, plus the record that held the key's live value, if any.
pub open spec fn stale_after_set(before: KVStore, key: Seq<char>) -> int {
    before.stale_bytes() + match before.index_entry(key) {
        Some(e) => live_weight(entry_place(e)),
        None => 0,
    }
}

/// The stale bytes once `remove(key)` has appended its tombstone: the old
/// count, plus the record of the key's live value, plus the tombstone.
pub open spec fn stale_after_remove(before: KVStore, key: Seq<char>) -> int {
    stale_after_set(before, key) + encode_record(RecordModel { key, value: None }).len()
}

/// `after` is the compacted store of a history `h`: the values of `h`, no
/// removed keys, one value record per key in the image, and an image that
/// the file layer must write anew.
pub open spec fn compact_result(h: History, after: KVStore) -> bool {
    &&& after.wf()
    &&& after.history() == without_tombstones(h)
    &&& compact_image(after.log_view(), after@)
    &&& after.stale_bytes() == 0
    &&& after.sync_state() == LogSync::Rewritten
}

/// `after` is `before` with `value` stored under `key`: the record appended,
/// or, where that leaves more than `COMPACTION_THRESHOLD` stale bytes, the
/// log compacted.
pub open spec fn set_done(before: KVStore, after: KVStore, key: Seq<char>, value: Seq<char>) -> bool {
    &&& after.wf()
    &&& after@ == before@.insert(key, value)
    &&& if stale_after_set(before, key) <= COMPACTION_THRESHOLD {
        &&& appended(before, after, RecordModel { key, value: Some(value) })
        &&& after.stale_bytes() == stale_after_set(before, key)
    } else {
        compact_result(before.history().insert(key, Some(value)), after)
    }
}

/// `after` is `before` with `key` removed: a tombstone appended, or, where
/// that leaves more than `COMPACTION_THRESHOLD` stale bytes, the log
/// compacted.
pub open spec fn remove_done(before: KVStore, after: KVStore, key: Seq<char>) -> bool {
    &&& after.wf()
    &&& before@.contains_key(key)
    &&& after@ == before@.remove(key)
    &&& if stale_after_remove(before, key) <= COMPACTION_THRESHOLD {
        &&& appended(before, after, RecordModel { key, value: None })
        &&& after.stale_bytes() == stale_after_remove(before, key)
    } else {
        compact_result(before.history().insert(key, None), after)
    }
}

/// `after` is `before` compacted: its image is the old one less the stale
/// bytes.
pub open spec fn compacted(before: KVStore, after: KVStore) -> bool {
    &&& after@ == before@
    &&& after.log_view().len() + before.stale_bytes() == before.log_view().len()
    &&& compact_result(before.history(), after)
}

/// `s` is what replaying the log bytes `bytes` gives: its image is the
/// part of `bytes` that the scan covers.
pub open spec fn recovered_from(bytes: Seq<u8>, s: KVStore) -> bool {
    &&& s.wf()
    &&& s.history() == replay(bytes)
    &&& s.index_places() == replay_index(bytes)
    &&& s.log_view() == bytes.subrange(0, scan_end(bytes, 0))
    &&& s.sync_state() == (if scan_end(bytes, 0) < bytes.len() {
        LogSync::Rewritten
    } else {
        LogSync::InSync
    })
}

/// In a well-formed store the index has an entry exactly for the keys of
/// the history, and each entry locates a record of its key that carries the
/// key's latest value (or removal), with the record's length.
pub proof fn lemma_index_locates(s: KVStore, k: Seq<char>)
    requires
        s.wf(),
    ensures
        s.index_entry(k) is Some <==> s.history().contains_key(k),
        s.index_entry(k) matches Some(e) ==> e.rm == (s.history()[k] is None) && record_at(
            s.log_view(),
            e.pos as int,
        ) == Some((RecordModel { key: k, value: s.history()[k] }, e.len as int)),
        s.index_entry(k) matches Some(e) ==> s.index_places().contains_key(k)
            && s.index_places()[k] == entry_place(e),
        s.index_entry(k) is None ==> !s.index_places().contains_key(k),
        s.index_places() == replay_index(s.log_view()),
{
    if s.index@.contains_key(k) {
        assert(s.entry_ok(k));
    }
}

/// After `set(k, v)`, `get(k)` returns `v`.
pub proof fn law_set_then_get(before: KVStore, after: KVStore, k: Seq<char>, v: Seq<char>)
    requires
        set_done(before, after, k, v),
    ensures
        lookup(after@, k) == Some(v),
{
}

/// After `remove(k)`, `get(k)` returns nothing, and so a second `remove(k)`
/// fails with `KeyNotFound`.
pub proof fn law_remove_then_get(before: KVStore, after: KVStore, k: Seq<char>)
    requires
        remove_done(before, after, k),
    ensures
        lookup(after@, k) is None,
        !after@.contains_key(k),
{
}

/// After `set(k, v1)` and then `set(k, v2)`, `get(k)` returns `v2`.
pub proof fn law_overwrite(
    s0: KVStore,
    s1: KVStore,
    s2: KVStore,
    k: Seq<char>,
    v1: Seq<char>,
    v2: Seq<char>,
)
    requires
        set_done(s0, s1, k, v1),
        set_done(s1, s2, k, v2),
    ensures
        lookup(s2@, k) == Some(v2),
{
}

/// Compacting twice in a row gives what compacting once gives.
pub proof fn law_compaction_idempotent(s0: KVStore, s1: KVStore, s2: KVStore)
    requires
        compacted(s0, s1),
        compacted(s1, s2),
    ensures
        s2@ == s1@,
        s2@ == s0@,
        s2.history() == s1.history(),
{
    assert(without_tombstones(s1.history()) =~= s1.history());
}

/// Compaction never makes the log longer: it drops exactly the stale bytes.
pub proof fn law_compaction_shrinks(s0: KVStore, s1: KVStore)
    requires
        s0.wf(),
        compacted(s0, s1),
    ensures
        s1.log_view().len() == s0.log_view().len() - s0.stale_bytes(),
        s1.log_view().len() <= s0.log_view().len(),
{
}

/// Reopening a store from the bytes of its log gives back every value and
/// every removal.
pub proof fn law_recovery(s: KVStore, t: KVStore)
    requires
        s.wf(),
        recovered_from(s.log_view(), t),
    ensures
        t@ == s@,
        t.history() == s.history(),
        t.log_view() == s.log_view(),
        t.index_places() == s.index_places(),
{
    assert(s.log_view().subrange(0, s.log_view().len() as int) =~= s.log_view());
}

/// The entries of a well-formed store's index are the places of the last
/// records of their keys, and the byte ranges of distinct keys do not
/// overlap.
pub proof fn law_index_disjoint(s: KVStore)
    requires
        s.wf(),
    ensures
        s.index_places() == replay_index(s.log_view()),
        places_disjoint(s.index_places(), s.log_view().len() as int),
{
    lemma_replay_index_disjoint(s.log_view());
}

/// Recovering log bytes whose last record is torn gives the history and
/// index of the whole-record prefix alone.
pub proof fn law_torn_tail(bytes: Seq<u8>, t: KVStore)
    requires
        recovered_from(bytes, t),
    ensures
        t.history() == replay(bytes.subrange(0, scan_end(bytes, 0))),
        t.index_places() == replay_index(bytes.subrange(0, scan_end(bytes, 0))),
        log_complete(bytes.subrange(0, scan_end(bytes, 0))),
{
    lemma_truncate(bytes);
}

impl KVEngine for KVStore {
    open spec fn contents(&self) -> Map<Seq<char>, Seq<char>> {
        self@
    }

    open spec fn inv(&self) -> bool {
        self.wf()
    }

    open spec fn infallible(&self) -> bool {
        true
    }

    fn set(&mut self, key: String, value: String) -> (r: Result<(), KVError>) {
        KVStore::set(self, key, value)
    }

    fn get(&self, key: String) -> (r: Result<Option<String>, KVError>) {
        KVStore::get(self, key)
    }

    fn remove(&mut self, key: String) -> (r: Result<(), KVError>) {
        KVStore::remove(self, key)
    }
}

} // verus!
