//! What can go wrong.
use vstd::prelude::*;
use vstd::string::*;

verus! {

/// An error, with a message.
#[derive(Debug)]
pub enum HakoError {
    Io(String),
    LockPoisoned(String),
    StorageError(String),
    QueryError(String),
    IndexError(String),
    Corrupt(String),
    InvalidInput(String),
}

/// The words before the message of an error.
pub open spec fn error_kind(e: HakoError) -> Seq<char> {
    match e {
        HakoError::Io(_) => "io error: "@,
        HakoError::LockPoisoned(_) => "lock poisoned: "@,
        HakoError::StorageError(_) => "storage error: "@,
        HakoError::QueryError(_) => "query error: "@,
        HakoError::IndexError(_) => "index error: "@,
        HakoError::Corrupt(_) => "corrupt data: "@,
        HakoError::InvalidInput(_) => "invalid input: "@,
    }
}

/// The message of an error.
pub open spec fn error_message(e: HakoError) -> Seq<char> {
    match e {
        HakoError::Io(m) => m@,
        HakoError::LockPoisoned(m) => m@,
        HakoError::StorageError(m) => m@,
        HakoError::QueryError(m) => m@,
        HakoError::IndexError(m) => m@,
        HakoError::Corrupt(m) => m@,
        HakoError::InvalidInput(m) => m@,
    }
}

impl HakoError {
    /// The error in words.
    pub fn text(&self) -> (s: String)
        ensures
            s@ == error_kind(*self) + error_message(*self),
    {
        let (kind, message): (&str, &String) = match self {
            HakoError::Io(m) => ("io error: ", m),
            HakoError::LockPoisoned(m) => ("lock poisoned: ", m),
            HakoError::StorageError(m) => ("storage error: ", m),
            HakoError::QueryError(m) => ("query error: ", m),
            HakoError::IndexError(m) => ("index error: ", m),
            HakoError::Corrupt(m) => ("corrupt data: ", m),
            HakoError::InvalidInput(m) => ("invalid input: ", m),
        };
        let mut s = kind.to_owned();
        s.append(message.as_str());
        s
    }
}

} // verus!
