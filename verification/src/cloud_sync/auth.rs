//! Tokens by which a node shows that it may sync.
use vstd::prelude::*;
use vstd::string::*;

use crate::text::{replace_all, replaced, same_text, trim_text, trimmed};

verus! {

/// Knows the secret that a token must match.
pub struct CloudAuthenticator {
    secret: String,
}

/// Whether a token is accepted: without the word `Bearer`, and without white space around
/// it, it is the secret, and it is not empty.
pub open spec fn accepts(secret: Seq<char>, token: Seq<char>) -> bool {
    let clean = trimmed(replaced(token, "Bearer "@));
    clean.len() > 0 && clean == secret
}

impl CloudAuthenticator {
    /// The secret.
    pub closed spec fn secret(&self) -> Seq<char> {
        self.secret@
    }

    pub fn new(secret: &str) -> (r: CloudAuthenticator)
        ensures
            r.secret() == secret@,
    {
        CloudAuthenticator { secret: secret.to_owned() }
    }

    /// Whether a token is accepted.
    pub fn validate_token(&self, token: &str) -> (r: bool)
        ensures
            r == accepts(self.secret(), token@),
    {
        let without = replace_all(token, "Bearer ");
        let clean = trim_text(without.as_str());
        let blank = same_text(clean.as_str(), "");
        proof {
            reveal_strlit("");
            if clean@.len() == 0 {
                assert(clean@ =~= ""@);
            }
        }
        !blank && same_text(clean.as_str(), self.secret.as_str())
    }
}

} // verus!
