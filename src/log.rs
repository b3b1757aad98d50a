//! The log as a sequence of records, and the state that replaying it gives.
use crate::codec::{encodable, encode_record, lemma_parse_encoded, lemma_parse_record_prefix, parse_record, RecordModel};
use vstd::prelude::*;

verus! {

/// What each key was last set to in a log: `Some(value)`, or `None` where
/// the last record of the key removed it.
pub type History = Map<Seq<char>, Option<Seq<char>>>;

/// The record that starts at `pos` in `log`, with its length in bytes.
pub open spec fn record_at(log: Seq<u8>, pos: int) -> Option<(RecordModel, int)> {
    if 0 <= pos <= log.len() {
        parse_record(log.subrange(pos, log.len() as int))
    } else {
        None
    }
}

/// Where a sequential scan of `log` from `pos` stops: at the end of the
/// log, or at the first place that does not hold a whole record.
pub open spec fn scan_end(log: Seq<u8>, pos: int) -> int
    decreases log.len() - pos,
{
    match record_at(log, pos) {
        Some((_, n)) => if n > 0 && pos + n <= log.len() {
            scan_end(log, pos + n)
        } else {
            pos
        },
        None => pos,
    }
}

/// `h` updated by the records that a scan of `log` from `pos` reads, in
/// order: a later record of a key wins over an earlier one.
pub open spec fn replay_from(log: Seq<u8>, pos: int, h: History) -> History
    decreases log.len() - pos,
{
    match record_at(log, pos) {
        Some((r, n)) => if n > 0 && pos + n <= log.len() {
            replay_from(log, pos + n, h.insert(r.key, r.value))
        } else {
            h
        },
        None => h,
    }
}

/// For each key, where its last record lies: whether that record removes
/// the key, its offset, and its length.
pub type Located = Map<Seq<char>, (bool, int, int)>;

/// `g` updated by the records that a scan of `log` from `pos` reads: each
/// record puts its own place under its key, so the last record of a key wins.
pub open spec fn index_from(log: Seq<u8>, pos: int, g: Located) -> Located
    decreases log.len() - pos,
{
    match record_at(log, pos) {
        Some((r, n)) => if n > 0 && pos + n <= log.len() {
            index_from(log, pos + n, g.insert(r.key, (r.value is None, pos, n)))
        } else {
            g
        },
        None => g,
    }
}

/// Where the last record of each key of `log` lies.
pub open spec fn replay_index(log: Seq<u8>) -> Located {
    index_from(log, 0, Map::empty())
}

/// The places of `g` are non-empty ranges that end by `bound` and do not
/// overlap.
pub open spec fn places_disjoint(g: Located, bound: int) -> bool {
    &&& forall|k: Seq<char>|
        #[trigger] g.contains_key(k) ==> 0 <= g[k].1 && 0 < g[k].2 && g[k].1 + g[k].2 <= bound
    &&& forall|a: Seq<char>, b: Seq<char>|
        #[trigger] g.contains_key(a) && #[trigger] g.contains_key(b) && a != b ==> g[a].1 + g[a].2
            <= g[b].1 || g[b].1 + g[b].2 <= g[a].1
}

/// What replaying `log` from its start gives.
pub open spec fn replay(log: Seq<u8>) -> History {
    replay_from(log, 0, Map::empty())
}

/// A log that is whole records from end to end.
pub open spec fn log_complete(log: Seq<u8>) -> bool {
    scan_end(log, 0) == log.len()
}

/// The keys that hold a value, with their values.
pub open spec fn live(h: History) -> Map<Seq<char>, Seq<char>> {
    Map::new(|k: Seq<char>| h.contains_key(k) && h[k] is Some, |k: Seq<char>| h[k]->Some_0)
}

/// A record stays where it is when bytes are appended to the log.
pub proof fn lemma_record_at_extend(log: Seq<u8>, more: Seq<u8>, pos: int)
    requires
        record_at(log, pos) is Some,
    ensures
        record_at(log + more, pos) == record_at(log, pos),
        9 <= record_at(log, pos)->Some_0.1 <= log.len() - pos,
{
    let s = log.subrange(pos, log.len() as int);
    let t = (log + more).subrange(pos, (log + more).len() as int);
    let n = parse_record(s)->Some_0.1;
    lemma_parse_record_prefix(s, s);
    assert(t.subrange(0, n) =~= s.subrange(0, n));
    lemma_parse_record_prefix(s, t);
}

/// The bytes of a record appended to `log` are read back as that record.
pub proof fn lemma_record_at_appended(log: Seq<u8>, r: RecordModel)
    requires
        encodable(r),
    ensures
        record_at(log + encode_record(r), log.len() as int) == Some(
            (r, encode_record(r).len() as int),
        ),
{
    let e = encode_record(r);
    let all = log + e;
    assert(all.subrange(log.len() as int, all.len() as int) =~= e + Seq::<u8>::empty());
    lemma_parse_encoded(r, Seq::<u8>::empty());
}

/// Appending a record to a log whose scan reaches its end from `pos`
/// extends the scan by that record, and replay by its update.
proof fn lemma_append_from(log: Seq<u8>, r: RecordModel, pos: int, h: History, g: Located)
    requires
        encodable(r),
        0 <= pos <= log.len(),
        scan_end(log, pos) == log.len(),
    ensures
        scan_end(log + encode_record(r), pos) == log.len() + encode_record(r).len(),
        replay_from(log + encode_record(r), pos, h) == replay_from(log, pos, h).insert(
            r.key,
            r.value,
        ),
        index_from(log + encode_record(r), pos, g) == index_from(log, pos, g).insert(
            r.key,
            (r.value is None, log.len() as int, encode_record(r).len() as int),
        ),
    decreases log.len() - pos,
{
    let e = encode_record(r);
    let all = log + e;
    if pos == log.len() {
        lemma_record_at_appended(log, r);
        let n = e.len() as int;
        assert(record_at(all, pos + n) is None) by {
            assert(all.subrange(pos + n, all.len() as int).len() == 0);
        }
        assert(record_at(log, pos) is None) by {
            assert(log.subrange(pos, log.len() as int).len() == 0);
        }
        assert(replay_from(all, pos + n, h.insert(r.key, r.value)) == h.insert(r.key, r.value));
        let loc = (r.value is None, pos, n);
        assert(index_from(all, pos + n, g.insert(r.key, loc)) == g.insert(r.key, loc));
        assert(scan_end(all, pos + n) == pos + n);
    } else {
        let (r0, n) = record_at(log, pos)->Some_0;
        let loc = (r0.value is None, pos, n);
        lemma_record_at_extend(log, e, pos);
        lemma_append_from(log, r, pos + n, h.insert(r0.key, r0.value), g.insert(r0.key, loc));
        assert(replay_from(all, pos, h) == replay_from(all, pos + n, h.insert(r0.key, r0.value)));
        assert(replay_from(log, pos, h) == replay_from(log, pos + n, h.insert(r0.key, r0.value)));
        assert(index_from(all, pos, g) == index_from(all, pos + n, g.insert(r0.key, loc)));
        assert(index_from(log, pos, g) == index_from(log, pos + n, g.insert(r0.key, loc)));
    }
}

/// Appending a record to a complete log keeps it complete and updates what
/// replaying it gives by that record.
pub proof fn lemma_append(log: Seq<u8>, r: RecordModel)
    requires
        encodable(r),
        log_complete(log),
    ensures
        log_complete(log + encode_record(r)),
        replay(log + encode_record(r)) == replay(log).insert(r.key, r.value),
        replay_index(log + encode_record(r)) == replay_index(log).insert(
            r.key,
            (r.value is None, log.len() as int, encode_record(r).len() as int),
        ),
{
    lemma_append_from(log, r, 0, Map::empty(), Map::empty());
}

/// Cutting a log at the place where its scan stops changes neither the scan
/// nor what replaying it gives.
proof fn lemma_truncate_from(log: Seq<u8>, end: int, pos: int, h: History, g: Located)
    requires
        0 <= pos <= end <= log.len(),
        scan_end(log, pos) == end,
    ensures
        scan_end(log.subrange(0, end), pos) == end,
        replay_from(log.subrange(0, end), pos, h) == replay_from(log, pos, h),
        index_from(log.subrange(0, end), pos, g) == index_from(log, pos, g),
    decreases log.len() - pos,
{
    let cut = log.subrange(0, end);
    if pos == end {
        assert(record_at(cut, pos) is None) by {
            assert(cut.subrange(pos, cut.len() as int).len() == 0);
        }
        if let Some((_, n)) = record_at(log, pos) {
            if n > 0 && pos + n <= log.len() {
                lemma_scan_end_bounds(log, pos + n);
            }
        }
        assert(replay_from(log, pos, h) == h);
        assert(index_from(log, pos, g) == g);
    } else {
        let (r0, n) = record_at(log, pos)->Some_0;
        let s = log.subrange(pos, log.len() as int);
        let t = cut.subrange(pos, cut.len() as int);
        lemma_parse_record_prefix(s, s);
        assert(pos + n <= end) by {
            lemma_scan_end_bounds(log, pos + n);
        }
        assert(t.subrange(0, n) =~= s.subrange(0, n));
        lemma_parse_record_prefix(s, t);
        let loc = (r0.value is None, pos, n);
        lemma_truncate_from(log, end, pos + n, h.insert(r0.key, r0.value), g.insert(r0.key, loc));
        assert(replay_from(cut, pos, h) == replay_from(cut, pos + n, h.insert(r0.key, r0.value)));
        assert(index_from(cut, pos, g) == index_from(cut, pos + n, g.insert(r0.key, loc)));
    }
}

/// A scan stops no earlier than where it starts and no later than the end.
pub proof fn lemma_scan_end_bounds(log: Seq<u8>, pos: int)
    requires
        0 <= pos <= log.len(),
    ensures
        pos <= scan_end(log, pos) <= log.len(),
    decreases log.len() - pos,
{
    if let Some((_, n)) = record_at(log, pos) {
        if n > 0 && pos + n <= log.len() {
            lemma_scan_end_bounds(log, pos + n);
        }
    }
}

/// The part of a log that its scan covers is complete, and replays as the
/// whole log does.
pub proof fn lemma_truncate(log: Seq<u8>)
    ensures
        0 <= scan_end(log, 0) <= log.len(),
        log_complete(log.subrange(0, scan_end(log, 0))),
        replay(log.subrange(0, scan_end(log, 0))) == replay(log),
        replay_index(log.subrange(0, scan_end(log, 0))) == replay_index(log),
{
    lemma_scan_end_bounds(log, 0);
    lemma_truncate_from(log, scan_end(log, 0), 0, Map::empty(), Map::empty());
}

/// Replaying a log from `pos` keeps the places disjoint.
proof fn lemma_index_from_disjoint(log: Seq<u8>, pos: int, g: Located)
    requires
        0 <= pos <= log.len(),
        places_disjoint(g, pos),
    ensures
        places_disjoint(index_from(log, pos, g), log.len() as int),
    decreases log.len() - pos,
{
    if let Some((r, n)) = record_at(log, pos) {
        if n > 0 && pos + n <= log.len() {
            let g2 = g.insert(r.key, (r.value is None, pos, n));
            assert(places_disjoint(g2, pos + n)) by {
                assert forall|a: Seq<char>, b: Seq<char>|
                    #[trigger] g2.contains_key(a) && #[trigger] g2.contains_key(b) && a != b implies
                    g2[a].1 + g2[a].2 <= g2[b].1 || g2[b].1 + g2[b].2 <= g2[a].1 by {
                    if a != r.key && b != r.key {
                        assert(g.contains_key(a) && g.contains_key(b));
                    } else if a == r.key {
                        assert(g.contains_key(b));
                    } else {
                        assert(g.contains_key(a));
                    }
                }
            }
            lemma_index_from_disjoint(log, pos + n, g2);
        }
    }
}

/// The places of the last records of distinct keys of a log do not
/// overlap, and lie within the log.
pub proof fn lemma_replay_index_disjoint(log: Seq<u8>)
    ensures
        places_disjoint(replay_index(log), log.len() as int),
{
    lemma_index_from_disjoint(log, 0, Map::empty());
}

/// The empty log is complete and replays to nothing.
pub proof fn lemma_empty_log()
    ensures
        log_complete(Seq::<u8>::empty()),
        replay(Seq::<u8>::empty()) == Map::<Seq<char>, Option<Seq<char>>>::empty(),
        replay_index(Seq::<u8>::empty()) == Map::<Seq<char>, (bool, int, int)>::empty(),
{
    assert(record_at(Seq::<u8>::empty(), 0) is None) by {
        assert(Seq::<u8>::empty().subrange(0, 0).len() == 0);
    }
}

} // verus!
