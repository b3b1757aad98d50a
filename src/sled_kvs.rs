//! The engine backed by the sled embedded database.
use crate::codec::string_from_utf8;
use crate::engine::{check_engine, other_engine_present, DirState, EngineKind, KVEngine};
use crate::error::KVError;
use vstd::prelude::*;
use vstd::string::StringSliceAdditionalSpecFns;
use vstd::utf8::{decode_utf8, encode_utf8, encode_utf8_decode_utf8, encode_utf8_valid_utf8, valid_utf8};

verus! {

broadcast use {encode_utf8_decode_utf8, encode_utf8_valid_utf8};

/// Declares `sled::Db`, the handle of an open database.
#[verifier::external_type_specification]
#[verifier::external_body]
pub struct ExDb(sled::Db);

/// The pairs of keys and values that a sled database holds.
pub uninterp spec fn sled_contents(db: sled::Db) -> Map<Seq<u8>, Seq<u8>>;

/// Relies on `sled::open`: opens, or creates, the database at `path`.
#[verifier::external_body]
fn sled_open(path: &str) -> (r: Result<sled::Db, sled::Error>) {
    sled::open(path)
}

/// Relies on `Tree::insert`: on success `key` holds `value`, and nothing
/// else changed.
#[verifier::external_body]
fn sled_insert(db: &mut sled::Db, key: &[u8], value: &[u8]) -> (r: Result<(), sled::Error>)
    ensures
        r is Ok ==> sled_contents(*final(db)) == sled_contents(*old(db)).insert(key@, value@),
{
    db.insert(key, value).map(|_| ())
}

/// Relies on `Tree::get`: the value that `key` holds, if any.
#[verifier::external_body]
fn sled_get(db: &sled::Db, key: &[u8]) -> (r: Result<Option<Vec<u8>>, sled::Error>)
    ensures
        r matches Ok(o) ==> (o is Some <==> sled_contents(*db).contains_key(key@)),
        r matches Ok(Some(v)) ==> v@ == sled_contents(*db)[key@],
{
    db.get(key).map(|o| o.map(|v| v.to_vec()))
}

/// Relies on `Tree::remove`: on success `key` holds nothing, and the value
/// that it held, if any, is returned.
#[verifier::external_body]
fn sled_remove(db: &mut sled::Db, key: &[u8]) -> (r: Result<Option<Vec<u8>>, sled::Error>)
    ensures
        r matches Ok(o) ==> (o is Some <==> sled_contents(*old(db)).contains_key(key@)),
        r matches Ok(Some(v)) ==> v@ == sled_contents(*old(db))[key@],
        r is Ok ==> sled_contents(*final(db)) == sled_contents(*old(db)).remove(key@),
{
    db.remove(key).map(|o| o.map(|v| v.to_vec()))
}

/// Relies on `Tree::flush`: writes the database's buffers out to disk.
#[verifier::external_body]
fn sled_flush(db: &sled::Db) -> (r: Result<(), sled::Error>) {
    db.flush().map(|_| ())
}

/// The engine backed by a sled database.
pub struct SledKVEngine(pub sled::Db);

/// The string pairs that a sled database holds, keys and values as UTF-8.
pub open spec fn string_contents(m: Map<Seq<u8>, Seq<u8>>) -> Map<Seq<char>, Seq<char>> {
    Map::new(
        |k: Seq<char>| m.contains_key(encode_utf8(k)) && valid_utf8(m[encode_utf8(k)]),
        |k: Seq<char>| decode_utf8(m[encode_utf8(k)]),
    )
}

/// Distinct strings have distinct UTF-8 forms.
proof fn lemma_encode_injective(a: Seq<char>, b: Seq<char>)
    ensures
        encode_utf8(a) == encode_utf8(b) ==> a == b,
{
    encode_utf8_decode_utf8(a);
    encode_utf8_decode_utf8(b);
}

/// The library's outcome of a sled call that returns nothing.
pub fn sled_outcome(done: Result<(), sled::Error>) -> (r: Result<(), KVError>)
    ensures
        match done {
            Ok(()) => r is Ok,
            Err(e) => r == Err::<(), KVError>(KVError::Sled(e)),
        },
{
    match done {
        Ok(()) => Ok(()),
        Err(e) => Err(KVError::Sled(e)),
    }
}

/// The answer to a `get`, from what sled returned for the key: its value as
/// a string, nothing, `Utf8` where the stored bytes are not UTF-8, or sled's
/// error.
pub fn get_outcome(found: Result<Option<Vec<u8>>, sled::Error>) -> (r: Result<
    Option<String>,
    KVError,
>)
    ensures
        match found {
            Err(e) => r == Err::<Option<String>, KVError>(KVError::Sled(e)),
            Ok(None) => r == Ok::<Option<String>, KVError>(None),
            Ok(Some(v)) => if valid_utf8(v@) {
                r matches Ok(Some(s)) && s@ == decode_utf8(v@)
            } else {
                r == Err::<Option<String>, KVError>(KVError::Utf8)
            },
        },
{
    match found {
        Err(e) => Err(KVError::Sled(e)),
        Ok(None) => Ok(None),
        Ok(Some(bytes)) => match string_from_utf8(bytes) {
            Some(s) => Ok(Some(s)),
            None => Err(KVError::Utf8),
        },
    }
}

/// The outcome of a removal, from what sled returned for the key: the key
/// held nothing (`KeyNotFound`), held a string (done), held bytes that are
/// not UTF-8 (`Utf8`), or sled failed.
pub fn remove_outcome(removed: Result<Option<Vec<u8>>, sled::Error>) -> (r: Result<(), KVError>)
    ensures
        match removed {
            Err(e) => r == Err::<(), KVError>(KVError::Sled(e)),
            Ok(None) => r == Err::<(), KVError>(KVError::KeyNotFound),
            Ok(Some(v)) => if valid_utf8(v@) {
                r is Ok
            } else {
                r == Err::<(), KVError>(KVError::Utf8)
            },
        },
{
    match removed {
        Err(e) => Err(KVError::Sled(e)),
        Ok(None) => Err(KVError::KeyNotFound),
        Ok(Some(bytes)) => match string_from_utf8(bytes) {
            Some(_) => Ok(()),
            None => Err(KVError::Utf8),
        },
    }
}

impl SledKVEngine {
    /// Opens the sled database at `db_path`; refused, with `WrongEngine`,
    /// exactly where the directory holds the log of the other engine.
    pub fn open(db_path: &str, dir: DirState) -> (r: Result<Self, KVError>)
        ensures
            other_engine_present(EngineKind::Sled, dir) ==> r matches Err(KVError::WrongEngine),
            r matches Err(KVError::WrongEngine) ==> other_engine_present(EngineKind::Sled, dir),
            !other_engine_present(EngineKind::Sled, dir) && r is Err ==> r matches Err(
                KVError::Sled(_),
            ),
    {
        match check_engine(EngineKind::Sled, dir) {
            Err(e) => Err(e),
            Ok(()) => match sled_open(db_path) {
                Ok(db) => Ok(SledKVEngine(db)),
                Err(e) => Err(KVError::Sled(e)),
            },
        }
    }
}

impl KVEngine for SledKVEngine {
    open spec fn contents(&self) -> Map<Seq<char>, Seq<char>> {
        string_contents(sled_contents(self.0))
    }

    open spec fn inv(&self) -> bool {
        true
    }

    open spec fn infallible(&self) -> bool {
        false
    }

    /// Inserts the pair, then flushes; any failure is sled's.
    fn set(&mut self, key: String, value: String) -> (r: Result<(), KVError>)
        ensures
            r is Err ==> r matches Err(KVError::Sled(_)),
    {
        let ghost before = sled_contents(self.0);
        let inserted = sled_insert(&mut self.0, key.as_str().as_bytes(), value.as_str().as_bytes());
        if let Err(e) = sled_outcome(inserted) {
            return Err(e);
        }
        proof {
            let after = sled_contents(self.0);
            assert forall|k: Seq<char>| #![auto]
                string_contents(after).contains_key(k) == string_contents(before).insert(
                    key@,
                    value@,
                ).contains_key(k) by {
                lemma_encode_injective(k, key@);
            }
            assert forall|k: Seq<char>| #![auto]
                string_contents(after).contains_key(k) implies string_contents(after)[k]
                == string_contents(before).insert(key@, value@)[k] by {
                lemma_encode_injective(k, key@);
            }
            assert(string_contents(after) =~= string_contents(before).insert(key@, value@));
        }
        sled_outcome(sled_flush(&self.0))
    }

    /// The value under the key; fails with sled's error, or with `Utf8`
    /// where the stored bytes are not UTF-8.
    fn get(&self, key: String) -> (r: Result<Option<String>, KVError>)
        ensures
            r is Err ==> r matches Err(KVError::Sled(_)) || r matches Err(KVError::Utf8),
            r matches Err(KVError::Utf8) ==> sled_contents(self.0).contains_key(
                encode_utf8(key@),
            ) && !valid_utf8(sled_contents(self.0)[encode_utf8(key@)]),
    {
        get_outcome(sled_get(&self.0, key.as_str().as_bytes()))
    }

    /// Removes the key, then flushes; `KeyNotFound` where sled held nothing
    /// for it, `Utf8` where what it held was not a string.
    fn remove(&mut self, key: String) -> (r: Result<(), KVError>)
        ensures
            r is Err ==> r matches Err(KVError::Sled(_)) || r matches Err(KVError::Utf8)
                || r matches Err(KVError::KeyNotFound),
            r matches Err(KVError::KeyNotFound) ==> !sled_contents(old(self).0).contains_key(
                encode_utf8(key@),
            ),
            r matches Err(KVError::Utf8) ==> sled_contents(old(self).0).contains_key(
                encode_utf8(key@),
            ) && !valid_utf8(sled_contents(old(self).0)[encode_utf8(key@)]),
    {
        let ghost before = sled_contents(self.0);
        let removed = sled_remove(&mut self.0, key.as_str().as_bytes());
        let ghost held = removed;
        if let Ok(Some(_)) = &removed {
            if let Err(e) = sled_flush(&self.0) {
                return Err(KVError::Sled(e));
            }
        }
        let r = remove_outcome(removed);
        proof {
            if r is Ok {
                let after = sled_contents(self.0);
                assert forall|k: Seq<char>| #![auto]
                    string_contents(after).contains_key(k) == string_contents(before).remove(
                        key@,
                    ).contains_key(k) by {
                    lemma_encode_injective(k, key@);
                }
                assert(string_contents(after) =~= string_contents(before).remove(key@));
                assert(held matches Ok(Some(v)) && valid_utf8(v@));
                assert(string_contents(before).contains_key(key@));
            }
        }
        r
    }
}

} // verus!
