use crate::error::KVError;
use vstd::prelude::*;

verus! {

/// A request of the wire protocol.
#[derive(Debug)]
pub enum KVRequest {
    Get { key: String },
    Put { key: String, val: String },
    Rm { key: String },
}

/// A response of the wire protocol: a result, or the message of an error.
#[derive(Debug)]
pub enum KVResponse {
    Success(Option<String>),
    Failure(String),
}

/// A key and the value stored under it.
#[derive(Debug)]
pub struct KVPair {
    pub key: String,
    pub val: String,
}

impl KVResponse {
    /// The outcome that the response carries: its value, or the server's
    /// message as an error.
    pub fn into_result(self) -> (r: Result<Option<String>, KVError>)
        ensures
            match self {
                KVResponse::Success(v) => r == Ok::<Option<String>, KVError>(v),
                KVResponse::Failure(m) => r matches Err(KVError::StringError(e)) && e == m,
            },
    {
        match self {
            KVResponse::Success(v) => Ok(v),
            KVResponse::Failure(m) => Err(KVError::StringError(m)),
        }
    }
}

impl KVPair {
    pub fn new(key: String, val: String) -> (r: Self)
        ensures
            r.key == key,
            r.val == val,
    {
        KVPair { key, val }
    }
}

} // verus!
