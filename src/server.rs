//! What the server does with a request: run it against the engine, and turn
//! the outcome into a response.
use crate::common_struct::{KVRequest, KVResponse};
use crate::engine::{lookup, opt_view, KVEngine};
use crate::error::{known_message, KVError};
use vstd::prelude::*;
use vstd::string::{StringExecFns, StringSliceAdditionalSpecFns};

verus! {

/// Answers requests from one engine.
pub struct KVServer<E: KVEngine> {
    pub engine: E,
}

/// The message of a successful `set`.
pub open spec fn set_message(key: Seq<char>, val: Seq<char>) -> Seq<char> {
    "set key: "@ + key + " value: "@ + val + " succesffully done !"@
}

/// The message of a successful removal.
pub open spec fn rm_message(key: Seq<char>) -> Seq<char> {
    "rm key: "@ + key + " succesffully done !"@
}

/// The answer to a `set` of `key` to `val`, from the engine's outcome: the
/// success message, or the engine's error.
pub fn set_answer(key: &String, val: &String, done: Result<(), KVError>) -> (r: Result<
    Option<String>,
    KVError,
>)
    ensures
        match done {
            Ok(()) => r matches Ok(Some(m)) && m@ == set_message(key@, val@),
            Err(e) => r == Err::<Option<String>, KVError>(e),
        },
{
    match done {
        Ok(()) => Ok(
            Some(
                String::from_str("set key: ").concat(key.as_str()).concat(" value: ").concat(
                    val.as_str(),
                ).concat(" succesffully done !"),
            ),
        ),
        Err(e) => Err(e),
    }
}

/// The answer to a removal of `key`, from the engine's outcome: the success
/// message; `FailGet` of the key where it held no value; any other error as
/// it is.
pub fn rm_answer(key: String, done: Result<(), KVError>) -> (r: Result<Option<String>, KVError>)
    ensures
        match done {
            Ok(()) => r matches Ok(Some(m)) && m@ == rm_message(key@),
            Err(KVError::KeyNotFound) => r matches Err(KVError::FailGet(k)) && k == key,
            Err(e) => r == Err::<Option<String>, KVError>(e),
        },
{
    match done {
        Ok(()) => Ok(
            Some(String::from_str("rm key: ").concat(key.as_str()).concat(" succesffully done !")),
        ),
        Err(KVError::KeyNotFound) => Err(KVError::FailGet(key)),
        Err(e) => Err(e),
    }
}

impl<E: KVEngine> KVServer<E> {
    pub fn new(engine: E) -> (r: Self)
        ensures
            r.engine == engine,
    {
        KVServer { engine }
    }

    /// Runs a request: its answer, or the error that it met.
    pub fn execute_cmd(&mut self, req: KVRequest) -> (r: Result<Option<String>, KVError>)
        requires
            old(self).engine.inv(),
        ensures
            final(self).engine.inv(),
            match req {
                KVRequest::Get { key } => get_answered(*old(self), *final(self), key@, r),
                KVRequest::Put { key, val } => set_answered(*old(self), *final(self), key@, val@, r),
                KVRequest::Rm { key } => rm_answered(*old(self), *final(self), key@, r),
            },
    {
        match req {
            KVRequest::Get { key } => self.execute_get_cmd(key),
            KVRequest::Put { key, val } => self.execute_set_cmd(key, val),
            KVRequest::Rm { key } => self.execute_rm_cmd(key),
        }
    }

    /// Answers a `get`: the value, or `None` where the key holds none.
    pub fn execute_get_cmd(&mut self, key: String) -> (r: Result<Option<String>, KVError>)
        requires
            old(self).engine.inv(),
        ensures
            final(self).engine.inv(),
            get_answered(*old(self), *final(self), key@, r),
    {
        self.engine.get(key)
    }

    /// Answers a `set`: stores the value and says so.
    pub fn execute_set_cmd(&mut self, key: String, val: String) -> (r: Result<
        Option<String>,
        KVError,
    >)
        requires
            old(self).engine.inv(),
        ensures
            final(self).engine.inv(),
            set_answered(*old(self), *final(self), key@, val@, r),
    {
        let k = key.clone();
        let v = val.clone();
        let done = self.engine.set(key, val);
        set_answer(&k, &v, done)
    }

    /// Answers a removal: removes the key and says so; a key that holds no
    /// value is reported as `FailGet` of the key.
    pub fn execute_rm_cmd(&mut self, key: String) -> (r: Result<Option<String>, KVError>)
        requires
            old(self).engine.inv(),
        ensures
            final(self).engine.inv(),
            rm_answered(*old(self), *final(self), key@, r),
    {
        let name = key.clone();
        let done = self.engine.remove(key);
        rm_answer(name, done)
    }
}

/// The answer `r` to a `get` of `key`: the engine is unchanged; the value
/// under the key, or `None`; never an error from an infallible engine.
pub open spec fn get_answered<E: KVEngine>(
    before: KVServer<E>,
    after: KVServer<E>,
    key: Seq<char>,
    r: Result<Option<String>, KVError>,
) -> bool {
    &&& after == before
    &&& (before.engine.infallible() ==> r is Ok)
    &&& (r matches Ok(o) ==> opt_view(o) == lookup(before.engine.contents(), key))
}

/// The answer `r` to a `set` of `key` to `val`.
pub open spec fn set_answered<E: KVEngine>(
    before: KVServer<E>,
    after: KVServer<E>,
    key: Seq<char>,
    val: Seq<char>,
    r: Result<Option<String>, KVError>,
) -> bool {
    &&& (before.engine.infallible() ==> r is Ok)
    &&& (r is Ok ==> after.engine.contents() == before.engine.contents().insert(key, val))
    &&& (r matches Ok(o) ==> o matches Some(m) && m@ == set_message(key, val))
}

/// The answer `r` to a removal of `key`.
pub open spec fn rm_answered<E: KVEngine>(
    before: KVServer<E>,
    after: KVServer<E>,
    key: Seq<char>,
    r: Result<Option<String>, KVError>,
) -> bool {
    &&& (before.engine.infallible() ==> (r is Ok <==> before.engine.contents().contains_key(key)))
    &&& (r is Ok ==> after.engine.contents() == before.engine.contents().remove(key))
    &&& (r matches Ok(o) ==> o matches Some(m) && m@ == rm_message(key))
    &&& (before.engine.infallible() && r is Err ==> (r matches Err(KVError::FailGet(k)) && k@
        == key))
}

/// How many bytes of `b` are a colon.
pub open spec fn colons(b: Seq<u8>) -> nat
    decreases b.len(),
{
    if b.len() == 0 {
        0
    } else {
        colons(b.drop_last()) + if b.last() == 0x3a { 1nat } else { 0nat }
    }
}

/// The address to bind or reach, given as `host:port`: kept where it holds
/// exactly one colon, refused otherwise.
pub fn parse_addr(arg: &str) -> (r: Option<String>)
    ensures
        r is Some <==> colons(arg.spec_bytes()) == 1,
        r matches Some(s) ==> s@ == arg@,
{
    let b = arg.as_bytes();
    let mut n: usize = 0;
    let mut i: usize = 0;
    while i < b.len()
        invariant
            b@ == arg.spec_bytes(),
            0 <= i <= b@.len(),
            n == colons(b@.subrange(0, i as int)),
            n <= i,
        decreases b@.len() - i,
    {
        assert(b@.subrange(0, i + 1).drop_last() =~= b@.subrange(0, i as int));
        if b[i] == 0x3a {
            n = n + 1;
        }
        i = i + 1;
    }
    assert(b@.subrange(0, i as int) =~= b@);
    if n == 1 {
        Some(arg.to_owned())
    } else {
        None
    }
}

/// The response that carries the outcome of a request.
pub fn response_for(outcome: Result<Option<String>, KVError>) -> (r: KVResponse)
    ensures
        match outcome {
            Ok(v) => r == KVResponse::Success(v),
            Err(e) => r matches KVResponse::Failure(m) && "error "@.is_prefix_of(m@) && (
            known_message(e) matches Some(t) ==> m@ == "error "@ + t),
        },
{
    match outcome {
        Ok(v) => KVResponse::Success(v),
        Err(e) => {
            let m = String::from_str("error ").concat(e.message().as_str());
            proof {
                assert(m@.subrange(0, "error "@.len() as int) =~= "error "@);
            }
            KVResponse::Failure(m)
        },
    }
}

} // verus!
