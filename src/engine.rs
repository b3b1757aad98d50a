//! The interface that both engines offer the server, and the rule that keeps
//! each data directory to one engine.
use crate::error::KVError;
use vstd::prelude::*;
use vstd::string::StringSliceAdditionalSpecFns;

verus! {

/// The value under `k` in `m`, if any.
pub open spec fn lookup(m: Map<Seq<char>, Seq<char>>, k: Seq<char>) -> Option<Seq<char>> {
    if m.contains_key(k) {
        Some(m[k])
    } else {
        None
    }
}

/// The view of an optional string.
pub open spec fn opt_view(o: Option<String>) -> Option<Seq<char>> {
    match o {
        Some(s) => Some(s@),
        None => None,
    }
}

/// A key-value engine: `set`, `get` and `remove` over the map `contents`.
pub trait KVEngine: Sized {
    /// The keys that hold a value, with their values.
    spec fn contents(&self) -> Map<Seq<char>, Seq<char>>;

    /// What the engine keeps true between calls.
    spec fn inv(&self) -> bool;

    /// The engine works in memory alone, so no call of it can fail for a
    /// reason outside its contents.
    spec fn infallible(&self) -> bool;

    /// Stores `value` under `key`, over any earlier value.
    fn set(&mut self, key: String, value: String) -> (r: Result<(), KVError>)
        requires
            old(self).inv(),
        ensures
            final(self).inv(),
            final(self).infallible() == old(self).infallible(),
            old(self).infallible() ==> r is Ok,
            r is Ok ==> final(self).contents() == old(self).contents().insert(key@, value@),
    ;

    /// The value under `key`; `None` where it holds none.
    fn get(&self, key: String) -> (r: Result<Option<String>, KVError>)
        requires
            self.inv(),
        ensures
            self.infallible() ==> r is Ok,
            r matches Ok(o) ==> opt_view(o) == lookup(self.contents(), key@),
    ;

    /// Removes `key`; fails with `KeyNotFound` where it holds no value.
    fn remove(&mut self, key: String) -> (r: Result<(), KVError>)
        requires
            old(self).inv(),
        ensures
            final(self).inv(),
            final(self).infallible() == old(self).infallible(),
            old(self).infallible() ==> (r is Ok <==> old(self).contents().contains_key(key@)),
            old(self).infallible() && r is Err ==> r == Err::<(), KVError>(KVError::KeyNotFound),
            r is Ok ==> old(self).contents().contains_key(key@) && final(self).contents()
                == old(self).contents().remove(key@),
            r matches Err(KVError::KeyNotFound) ==> !old(self).contents().contains_key(key@),
    ;
}

/// The two engines.
#[derive(Clone, Copy, Debug, PartialEq, Eq, Structural)]
pub enum EngineKind {
    /// The log-structured engine of this crate.
    Kvs,
    /// The engine backed by the sled database.
    Sled,
}

/// Which engines' files a data directory holds.
#[derive(Clone, Copy, Debug, PartialEq, Eq, Structural)]
pub struct DirState {
    /// The log file of the log-structured engine is there.
    pub has_kvs_log: bool,
    /// The database directory of the sled engine is there.
    pub has_sled_db: bool,
}

/// The directory holds the files of the engine other than `kind`.
pub open spec fn other_engine_present(kind: EngineKind, dir: DirState) -> bool {
    match kind {
        EngineKind::Kvs => dir.has_sled_db,
        EngineKind::Sled => dir.has_kvs_log,
    }
}

/// The directory has been initialised by the engine `kind`.
pub open spec fn initialised_by(kind: EngineKind, dir: DirState) -> bool {
    match kind {
        EngineKind::Kvs => dir.has_kvs_log,
        EngineKind::Sled => dir.has_sled_db,
    }
}

/// Whether the engine `kind` may open the directory: not where the other
/// engine's files are.
pub fn check_engine(kind: EngineKind, dir: DirState) -> (r: Result<(), KVError>)
    ensures
        r is Err <==> other_engine_present(kind, dir),
        r is Err ==> r == Err::<(), KVError>(KVError::WrongEngine),
{
    let present = match kind {
        EngineKind::Kvs => dir.has_sled_db,
        EngineKind::Sled => dir.has_kvs_log,
    };
    if present {
        Err(KVError::WrongEngine)
    } else {
        Ok(())
    }
}

/// A directory initialised by one engine is refused to the other, both ways.
pub proof fn law_engine_exclusive(dir: DirState)
    ensures
        initialised_by(EngineKind::Kvs, dir) ==> other_engine_present(EngineKind::Sled, dir),
        initialised_by(EngineKind::Sled, dir) ==> other_engine_present(EngineKind::Kvs, dir),
{
}

/// `a` and `b` hold the same characters.
fn str_equal(a: &str, b: &str) -> (r: bool)
    ensures
        r == (a@ == b@),
{
    let x = a.as_bytes();
    let y = b.as_bytes();
    proof {
        vstd::utf8::encode_utf8_decode_utf8(a@);
        vstd::utf8::encode_utf8_decode_utf8(b@);
    }
    if x.len() != y.len() {
        return false;
    }
    let mut i: usize = 0;
    while i < x.len()
        invariant
            x@.len() == y@.len(),
            x@ == a.spec_bytes(),
            y@ == b.spec_bytes(),
            0 <= i <= x@.len(),
            x@.subrange(0, i as int) == y@.subrange(0, i as int),
        decreases x@.len() - i,
    {
        if x[i] != y[i] {
            assert(x@[i as int] != y@[i as int]);
            return false;
        }
        i = i + 1;
        assert(x@.subrange(0, i as int) =~= x@.subrange(0, i - 1).push(x@[i - 1]));
        assert(y@.subrange(0, i as int) =~= y@.subrange(0, i - 1).push(y@[i - 1]));
    }
    assert(x@ =~= x@.subrange(0, i as int));
    assert(y@ =~= y@.subrange(0, i as int));
    true
}

/// The engine that a name selects: `kvs` or `sled`.
pub fn current_engine(engine: &str) -> (r: Result<EngineKind, KVError>)
    ensures
        engine@ == "kvs"@ ==> r == Ok::<EngineKind, KVError>(EngineKind::Kvs),
        engine@ == "sled"@ ==> r == Ok::<EngineKind, KVError>(EngineKind::Sled),
        engine@ != "kvs"@ && engine@ != "sled"@ ==> (r matches Err(KVError::EngineNotFound(n))
            && n@ == engine@),
{
    proof {
        reveal_strlit("kvs");
        reveal_strlit("sled");
    }
    assert("kvs"@ != "sled"@) by {
        assert("kvs"@.len() != "sled"@.len());
    }
    if str_equal(engine, "kvs") {
        Ok(EngineKind::Kvs)
    } else if str_equal(engine, "sled") {
        Ok(EngineKind::Sled)
    } else {
        Err(KVError::EngineNotFound(engine.to_owned()))
    }
}

} // verus!
