use vstd::prelude::*;
use vstd::string::StringExecFns;

verus! {

/// Declares `sled::Error`, carried by [`KVError::Sled`].
#[verifier::external_type_specification]
#[verifier::external_body]
pub struct ExSledError(sled::Error);

/// The errors of the store, its engines and its server.
#[derive(Debug)]
pub enum KVError {
    /// An I/O failure met while reading or writing the store's files.
    Io(String),
    /// A request or response that could not be (de)serialised.
    Serde(String),
    /// Bytes that should hold a string and are not UTF-8.
    Utf8,
    /// A failure reported by the sled database.
    Sled(sled::Error),
    /// The directory was initialised by the other engine.
    WrongEngine,
    /// A removal that failed on the server.
    FailGet(String),
    /// The index names a record that the log does not hold.
    ReadLog,
    /// A removal of a key that holds no value.
    KeyNotFound,
    /// An engine name that is neither `kvs` nor `sled`.
    EngineNotFound(String),
    /// An error reported by the server, as its message.
    StringError(String),
}

/// Relies on the `Display` impl of `sled::Error` for its message.
#[verifier::external_body]
fn sled_error_text(e: &sled::Error) -> String {
    format!("{}", e)
}

/// The message of an error, where it does not depend on sled's wording.
pub open spec fn known_message(e: KVError) -> Option<Seq<char>> {
    match e {
        KVError::Io(m) => Some("An I/O error occurred: "@ + m@),
        KVError::Serde(m) => Some("A serde error occurred: "@ + m@),
        KVError::Utf8 => Some("A string is not valid UTF-8."@),
        KVError::Sled(_) => None,
        KVError::WrongEngine => Some("Wrong engine."@),
        KVError::FailGet(k) => Some("Fail to get value from "@ + k@),
        KVError::ReadLog => Some("Error reading entry from log file"@),
        KVError::KeyNotFound => Some("Key not found"@),
        KVError::EngineNotFound(n) => Some(n@),
        KVError::StringError(m) => Some(m@),
    }
}

impl KVError {
    /// The message that describes the error.
    pub fn message(&self) -> (r: String)
        ensures
            known_message(*self) matches Some(t) ==> r@ == t,
            self is Sled ==> "An error occurred with the sled engine: "@.is_prefix_of(r@),
    {
        match self {
            KVError::Io(m) => String::from_str("An I/O error occurred: ").concat(m.as_str()),
            KVError::Serde(m) => String::from_str("A serde error occurred: ").concat(m.as_str()),
            KVError::Utf8 => String::from_str("A string is not valid UTF-8."),
            KVError::Sled(e) => {
                let r = String::from_str("An error occurred with the sled engine: ").concat(
                    sled_error_text(e).as_str(),
                );
                proof {
                    let p = "An error occurred with the sled engine: "@;
                    assert(r@.subrange(0, p.len() as int) =~= p);
                }
                r
            },
            KVError::WrongEngine => String::from_str("Wrong engine."),
            KVError::FailGet(k) => String::from_str("Fail to get value from ").concat(k.as_str()),
            KVError::ReadLog => String::from_str("Error reading entry from log file"),
            KVError::KeyNotFound => String::from_str("Key not found"),
            KVError::EngineNotFound(n) => n.clone(),
            KVError::StringError(m) => m.clone(),
        }
    }
}

} // verus!
