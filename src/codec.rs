//! The on-disk form of a log record.
//!
//! A record is a tag byte, then the key as a length-prefixed UTF-8 string,
//! then, for a value record only, the value in the same form. Lengths are
//! eight bytes, little endian. A removal carries its own tag rather than a
//! reserved value, so every string can be stored.
use crate::common_struct::KVPair;
use vstd::bytes::*;
use vstd::prelude::*;
use vstd::utf8::*;

verus! {

broadcast use {encode_utf8_decode_utf8, encode_utf8_valid_utf8};

/// Tag byte of a record that sets a value.
pub const VALUE_TAG: u8 = 0;

/// Tag byte of a record that removes a key.
pub const TOMBSTONE_TAG: u8 = 1;

/// What a record says: its key, and the value it sets (`None` for a removal).
pub struct RecordModel {
    pub key: Seq<char>,
    pub value: Option<Seq<char>>,
}

/// One entry of the log: a value set for a key, or the removal of a key.
#[derive(Debug)]
pub enum LogRecord {
    Put(KVPair),
    Remove(String),
}

impl View for LogRecord {
    type V = RecordModel;

    open spec fn view(&self) -> RecordModel {
        match self {
            LogRecord::Put(p) => RecordModel { key: p.key@, value: Some(p.val@) },
            LogRecord::Remove(k) => RecordModel { key: k@, value: None },
        }
    }
}

/// The eight-byte length field written before a string of bytes `b`.
pub open spec fn len_field(b: Seq<u8>) -> Seq<u8> {
    spec_u64_to_le_bytes(b.len() as u64)
}

/// The length-prefixed form of a string.
pub open spec fn encode_str(s: Seq<char>) -> Seq<u8> {
    len_field(encode_utf8(s)) + encode_utf8(s)
}

/// The bytes of a record.
pub open spec fn encode_record(r: RecordModel) -> Seq<u8> {
    match r.value {
        Some(v) => seq![VALUE_TAG] + encode_str(r.key) + encode_str(v),
        None => seq![TOMBSTONE_TAG] + encode_str(r.key),
    }
}

/// A string whose UTF-8 length fits its length field.
pub open spec fn str_encodable(s: Seq<char>) -> bool {
    encode_utf8(s).len() <= u64::MAX
}

/// A record whose strings fit their length fields.
pub open spec fn encodable(r: RecordModel) -> bool {
    &&& str_encodable(r.key)
    &&& (r.value matches Some(v) ==> str_encodable(v))
}

/// The length read from the eight bytes of `s` at `at`.
pub open spec fn read_len(s: Seq<u8>, at: int) -> int {
    spec_u64_from_le_bytes(s.subrange(at, at + 8)) as int
}

/// The length-prefixed string at `at` in `s`, with the position just past it.
pub open spec fn parse_str(s: Seq<u8>, at: int) -> Option<(Seq<char>, int)> {
    if at < 0 || s.len() < at + 8 {
        None
    } else {
        let end = at + 8 + read_len(s, at);
        if s.len() < end || !valid_utf8(s.subrange(at + 8, end)) {
            None
        } else {
            Some((decode_utf8(s.subrange(at + 8, end)), end))
        }
    }
}

/// The record at the start of `s`, with its length in bytes; `None` where
/// `s` does not start with a whole record.
pub open spec fn parse_record(s: Seq<u8>) -> Option<(RecordModel, int)> {
    if s.len() < 1 || (s[0] != VALUE_TAG && s[0] != TOMBSTONE_TAG) {
        None
    } else {
        match parse_str(s, 1) {
            None => None,
            Some((key, kend)) => if s[0] == TOMBSTONE_TAG {
                Some((RecordModel { key, value: None }, kend))
            } else {
                match parse_str(s, kend) {
                    None => None,
                    Some((val, vend)) => Some((RecordModel { key, value: Some(val) }, vend)),
                }
            },
        }
    }
}

/// A string parsed from `s` is parsed alike from any `t` that agrees with
/// `s` on the bytes that it spans.
proof fn lemma_parse_str_prefix(s: Seq<u8>, t: Seq<u8>, at: int)
    requires
        parse_str(s, at) is Some,
        t.len() >= parse_str(s, at)->Some_0.1,
        t.subrange(0, parse_str(s, at)->Some_0.1) == s.subrange(0, parse_str(s, at)->Some_0.1),
    ensures
        parse_str(t, at) == parse_str(s, at),
        at + 8 <= parse_str(s, at)->Some_0.1 <= s.len(),
{
    let end = parse_str(s, at)->Some_0.1;
    assert forall|i: int| 0 <= i < end implies t[i] == s[i] by {
        assert(t[i] == t.subrange(0, end)[i]);
        assert(s[i] == s.subrange(0, end)[i]);
    }
    assert(t.subrange(at, at + 8) =~= s.subrange(at, at + 8));
    assert(t.subrange(at + 8, end) =~= s.subrange(at + 8, end));
}

/// A record parsed from `s` is parsed alike from any `t` that agrees with
/// `s` on the bytes that it spans.
pub proof fn lemma_parse_record_prefix(s: Seq<u8>, t: Seq<u8>)
    requires
        parse_record(s) is Some,
        t.len() >= parse_record(s)->Some_0.1,
        t.subrange(0, parse_record(s)->Some_0.1) == s.subrange(0, parse_record(s)->Some_0.1),
    ensures
        parse_record(t) == parse_record(s),
        9 <= parse_record(s)->Some_0.1 <= s.len(),
{
    let n = parse_record(s)->Some_0.1;
    assert(t[0] == t.subrange(0, n)[0]);
    let kend = parse_str(s, 1)->Some_0.1;
    assert(t.subrange(0, kend) =~= t.subrange(0, n).subrange(0, kend));
    assert(s.subrange(0, kend) =~= s.subrange(0, n).subrange(0, kend));
    lemma_parse_str_prefix(s, t, 1);
    if s[0] == VALUE_TAG {
        lemma_parse_str_prefix(s, t, kend);
    }
}

/// A string parsed from `s` spans its length field and its UTF-8 bytes.
proof fn lemma_parse_str_length(s: Seq<u8>, at: int)
    requires
        parse_str(s, at) is Some,
    ensures
        parse_str(s, at)->Some_0.1 - at == encode_str(parse_str(s, at)->Some_0.0).len(),
{
    let end = parse_str(s, at)->Some_0.1;
    let b = s.subrange(at + 8, end);
    vstd::utf8::decode_utf8_encode_utf8(b);
    vstd::bytes::lemma_auto_spec_u64_to_from_le_bytes();
    assert(len_field(encode_utf8(decode_utf8(b))).len() == 8);
}

/// A record parsed from `s` is as long as its encoding.
pub proof fn lemma_parse_length(s: Seq<u8>)
    requires
        parse_record(s) is Some,
    ensures
        parse_record(s)->Some_0.1 == encode_record(parse_record(s)->Some_0.0).len(),
{
    lemma_parse_str_length(s, 1);
    if s[0] == VALUE_TAG {
        lemma_parse_str_length(s, parse_str(s, 1)->Some_0.1);
    }
}

/// The length-prefixed form of a string, followed by anything, parses back
/// to that string.
proof fn lemma_parse_str_encoded(pre: Seq<u8>, s: Seq<char>, rest: Seq<u8>)
    requires
        str_encodable(s),
    ensures
        parse_str(pre + encode_str(s) + rest, pre.len() as int) == Some(
            (s, pre.len() + encode_str(s).len() as int),
        ),
{
    let b = encode_utf8(s);
    let all = pre + encode_str(s) + rest;
    let at = pre.len() as int;
    vstd::bytes::lemma_auto_spec_u64_to_from_le_bytes();
    assert(all.subrange(at, at + 8) =~= len_field(b));
    assert(read_len(all, at) == b.len());
    assert(all.subrange(at + 8, at + 8 + b.len()) =~= b);
}

/// The bytes of an encodable record, followed by anything, parse back to
/// that record and its length.
pub proof fn lemma_parse_encoded(r: RecordModel, rest: Seq<u8>)
    requires
        encodable(r),
    ensures
        parse_record(encode_record(r) + rest) == Some((r, encode_record(r).len() as int)),
{
    let all = encode_record(r) + rest;
    let head = seq![if r.value is Some { VALUE_TAG } else { TOMBSTONE_TAG }];
    match r.value {
        Some(v) => {
            assert(all =~= head + encode_str(r.key) + (encode_str(v) + rest));
            lemma_parse_str_encoded(head, r.key, encode_str(v) + rest);
            assert(all =~= (head + encode_str(r.key)) + encode_str(v) + rest);
            lemma_parse_str_encoded(head + encode_str(r.key), v, rest);
        },
        None => {
            assert(all =~= head + encode_str(r.key) + rest);
            lemma_parse_str_encoded(head, r.key, rest);
        },
    }
}

/// Relies on `String::from_utf8`: the bytes are taken as a string exactly
/// when they are valid UTF-8.
#[verifier::external_body]
pub(crate) fn string_from_utf8(bytes: Vec<u8>) -> (r: Option<String>)
    ensures
        r is Some <==> valid_utf8(bytes@),
        r matches Some(s) ==> s@ == decode_utf8(bytes@),
{
    String::from_utf8(bytes).ok()
}

/// Appends the bytes of `src` to `dst`.
fn push_all(dst: &mut Vec<u8>, src: &[u8])
    ensures
        final(dst)@ == old(dst)@ + src@,
{
    let mut i: usize = 0;
    while i < src.len()
        invariant
            0 <= i <= src@.len(),
            dst@ == old(dst)@ + src@.subrange(0, i as int),
        decreases src@.len() - i,
    {
        dst.push(src[i]);
        i = i + 1;
        assert(src@.subrange(0, i as int) =~= src@.subrange(0, i - 1) + seq![src@[i - 1]]);
    }
    assert(src@.subrange(0, src@.len() as int) =~= src@);
}

/// Appends the length-prefixed form of `s` to `dst`.
fn push_str(dst: &mut Vec<u8>, s: &String)
    ensures
        final(dst)@ == old(dst)@ + encode_str(s@),
        str_encodable(s@),
{
    let b = s.as_str().as_bytes();
    let len = u64_to_le_bytes(b.len() as u64);
    push_all(dst, len.as_slice());
    push_all(dst, b);
    assert(final(dst)@ =~= old(dst)@ + encode_str(s@));
}

/// The bytes of a record.
pub fn encode(rec: &LogRecord) -> (r: Vec<u8>)
    ensures
        r@ == encode_record(rec@),
        encodable(rec@),
{
    let mut out: Vec<u8> = Vec::new();
    match rec {
        LogRecord::Put(p) => {
            out.push(VALUE_TAG);
            push_str(&mut out, &p.key);
            push_str(&mut out, &p.val);
        },
        LogRecord::Remove(k) => {
            out.push(TOMBSTONE_TAG);
            push_str(&mut out, k);
        },
    }
    assert(out@ =~= encode_record(rec@));
    out
}

/// The bytes of `log` from `from` up to `to`.
fn copy_range(log: &Vec<u8>, from: usize, to: usize) -> (r: Vec<u8>)
    requires
        from <= to <= log@.len(),
    ensures
        r@ == log@.subrange(from as int, to as int),
{
    let mut out: Vec<u8> = Vec::new();
    let mut i: usize = from;
    while i < to
        invariant
            from <= i <= to <= log@.len(),
            out@ == log@.subrange(from as int, i as int),
        decreases to - i,
    {
        out.push(log[i]);
        i = i + 1;
        assert(out@ =~= log@.subrange(from as int, i as int));
    }
    out
}

/// The length-prefixed string at `at` in `log`, with the position past it.
fn decode_str(log: &Vec<u8>, at: usize) -> (r: Option<(String, usize)>)
    requires
        at <= log@.len(),
    ensures
        match r {
            Some((s, end)) => parse_str(log@, at as int) == Some((s@, end as int)),
            None => parse_str(log@, at as int) is None,
        },
{
    if log.len() - at < 8 {
        return None;
    }
    let field = copy_range(log, at, at + 8);
    let n = u64_from_le_bytes(field.as_slice());
    let start = at + 8;
    if n > (log.len() - start) as u64 {
        return None;
    }
    let end = start + n as usize;
    let bytes = copy_range(log, start, end);
    match string_from_utf8(bytes) {
        Some(s) => Some((s, end)),
        None => None,
    }
}

/// Parsing a string in a suffix of `log` is parsing it in `log`, shifted.
proof fn lemma_parse_str_shift(log: Seq<u8>, pos: int, at: int)
    requires
        0 <= pos <= log.len(),
        0 <= at,
    ensures
        parse_str(log.subrange(pos, log.len() as int), at) == match parse_str(log, pos + at) {
            Some((v, end)) => Some((v, end - pos)),
            None => None,
        },
{
    let s = log.subrange(pos, log.len() as int);
    if at + 8 <= s.len() {
        assert(s.subrange(at, at + 8) =~= log.subrange(pos + at, pos + at + 8));
        assert(read_len(s, at) == read_len(log, pos + at));
        let end = at + 8 + read_len(s, at);
        if end <= s.len() {
            assert(s.subrange(at + 8, end) =~= log.subrange(pos + at + 8, pos + end));
        }
    }
}

/// The record at `pos` in `log`, with its length in bytes.
pub fn decode_at(log: &Vec<u8>, pos: usize) -> (r: Option<(LogRecord, usize)>)
    requires
        pos <= log@.len(),
    ensures
        match r {
            Some((rec, n)) => parse_record(log@.subrange(pos as int, log@.len() as int)) == Some(
                (rec@, n as int),
            ),
            None => parse_record(log@.subrange(pos as int, log@.len() as int)) is None,
        },
{
    if pos >= log.len() {
        return None;
    }
    let tag = log[pos];
    if tag != VALUE_TAG && tag != TOMBSTONE_TAG {
        return None;
    }
    proof {
        lemma_parse_str_shift(log@, pos as int, 1);
    }
    match decode_str(log, pos + 1) {
        None => None,
        Some((key, kend)) => {
            proof {
                lemma_parse_str_shift(log@, pos as int, kend - pos);
            }
            if tag == TOMBSTONE_TAG {
                Some((LogRecord::Remove(key), kend - pos))
            } else {
                match decode_str(log, kend) {
                    None => None,
                    Some((val, vend)) => {
                        Some((LogRecord::Put(KVPair::new(key, val)), vend - pos))
                    },
                }
            }
        },
    }
}

} // verus!
