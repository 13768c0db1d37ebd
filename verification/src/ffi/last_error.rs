//! The last error, and the texts that callers hand over.
use vstd::prelude::*;
use vstd::string::*;
use vstd::utf8::{decode_utf8, valid_utf8};

use crate::error::{error_kind, error_message, HakoError};
use crate::text::{chars_of, text_of_utf8};

verus! {

/// The message of the last call that failed.
pub struct LastError {
    pub message: Option<String>,
}

/// What the last error stands for.
impl View for LastError {
    type V = Option<Seq<char>>;

    open spec fn view(&self) -> Option<Seq<char>> {
        match self.message {
            Some(s) => Some(s@),
            None => None,
        }
    }
}

/// A message as it can be told: one with a zero character in it cannot.
pub open spec fn told(message: Seq<char>) -> Seq<char> {
    if message.contains('\0') {
        "ffi error"@
    } else {
        message
    }
}

/// The text of bytes that a caller handed over, or what is wrong with them.
pub open spec fn arg_text(bytes: Option<&[u8]>) -> Result<Seq<char>, Seq<char>> {
    match bytes {
        None => Err("null pointer"@),
        Some(b) => if valid_utf8(b@) {
            Ok(decode_utf8(b@))
        } else {
            Err("invalid utf8"@)
        },
    }
}

/// A call failed with a message.
pub open spec fn failed(n: i32, error: Option<Seq<char>>, message: Seq<char>) -> bool {
    n == -1 && error == Some(told(message))
}

/// A call did its work, and there is no error.
pub open spec fn succeeded(n: i32, error: Option<Seq<char>>) -> bool {
    n == 0 && error is None
}

/// The error in words.
pub open spec fn error_words(e: HakoError) -> Seq<char> {
    error_kind(e) + error_message(e)
}

/// The text of bytes that a caller handed over, or what is wrong with them.
pub fn cstr_to_string(bytes: Option<&[u8]>) -> (r: Result<String, String>)
    ensures
        match (r, arg_text(bytes)) {
            (Ok(s), Ok(m)) => s@ == m,
            (Err(e), Err(m)) => e@ == m,
            _ => false,
        },
{
    match bytes {
        None => Err("null pointer".to_owned()),
        Some(b) => match text_of_utf8(b) {
            Some(s) => Ok(s),
            None => Err("invalid utf8".to_owned()),
        },
    }
}

impl LastError {
    /// No error yet.
    pub fn new() -> (e: LastError)
        ensures
            e@ is None,
    {
        LastError { message: None }
    }

    /// Keeps a message, and hands back the number of a failure.
    pub fn set_last_error(&mut self, message: &str) -> (n: i32)
        ensures
            n == -1,
            final(self)@ == Some(told(message@)),
    {
        let cs = chars_of(message);
        let mut i: usize = 0;
        while i < cs.len()
            invariant
                cs@ == message@,
                i <= cs@.len(),
                forall|k: int| 0 <= k < i ==> #[trigger] message@[k] != '\0',
            decreases cs@.len() - i,
        {
            if cs[i] == '\0' {
                proof {
                    assert(message@[i as int] == '\0');
                }
                self.message = Some("ffi error".to_owned());
                return -1;
            }
            i = i + 1;
        }
        self.message = Some(message.to_owned());
        -1
    }

    /// Keeps an error in words, and hands back the number of a failure.
    pub fn set_error(&mut self, e: &HakoError) -> (n: i32)
        ensures
            failed(n, final(self)@, error_words(*e)),
    {
        let s = e.text();
        self.set_last_error(s.as_str())
    }

    /// The message of the last call that failed.
    pub fn fl_last_error(&self) -> (r: Option<&String>)
        ensures
            match (r, self@) {
                (Some(s), Some(m)) => s@ == m,
                (None, None) => true,
                _ => false,
            },
    {
        match &self.message {
            Some(s) => Some(s),
            None => None,
        }
    }

    /// Forgets the message.
    pub fn clear_last_error(&mut self)
        ensures
            final(self)@ is None,
    {
        self.message = None;
    }
}

} // verus!
