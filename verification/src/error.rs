use vstd::prelude::*;
use vstd::string::StringExecFns;

verus! {

/// Failures of the store and of the protocol layer.
///
/// `KeyNotFound` is the one condition callers branch on; every other
/// variant is fatal to the operation that raised it.
#[derive(Debug)]
pub enum KvsError {
    /// Removal was asked of a key that is not present; carries the key.
    KeyNotFound(String),
    /// An index entry led to a record that is not a `Set` command.
    UnexpectedCommandType,
    /// A record failed to decode during replay: generation and offset
    /// of the malformed record.  Corruption ends recovery.
    Malformed(u64, u64),
    /// The store reached the limit of its offset arithmetic.
    Full,
    /// A failure relayed as plain text, as the wire carries it.
    StringError(String),
}

/// The human-readable text of each failure, as the server sends it.
pub open spec fn error_text(e: KvsError) -> Seq<char> {
    match e {
        KvsError::KeyNotFound(_) => "Key not found"@,
        KvsError::UnexpectedCommandType => "Invalid command"@,
        KvsError::Malformed(_, _) => "Malformed command record"@,
        KvsError::Full => "Store size limit reached"@,
        KvsError::StringError(s) => s@,
    }
}

impl KvsError {
    /// The message a server relays for this failure.
    pub fn message(&self) -> (m: String)
        ensures
            m@ == error_text(*self),
    {
        match self {
            KvsError::KeyNotFound(_) => String::from_str("Key not found"),
            KvsError::UnexpectedCommandType => String::from_str("Invalid command"),
            KvsError::Malformed(_, _) => String::from_str("Malformed command record"),
            KvsError::Full => String::from_str("Store size limit reached"),
            KvsError::StringError(s) => s.clone(),
        }
    }
}

} // verus!
