//! The address of a server.
use vstd::prelude::*;
use vstd::string::*;

use crate::engine::access::{begins, text_begins};
use crate::text::{chars_of, text_of, trim_text, trimmed};

verus! {

/// An address with one beginning in place of another.
pub open spec fn rebegun(s: Seq<char>, from: Seq<char>, to: Seq<char>) -> Seq<char> {
    to + s.skip(from.len() as int)
}

/// The address of a server as a web socket takes it: `https` and `http` become `wss` and
/// `ws`, and an address without either is a `wss` one.
pub open spec fn ws_url(server_url: Seq<char>) -> Seq<char> {
    let s = trimmed(server_url);
    let t = if begins(s, "https://"@) {
        rebegun(s, "https://"@, "wss://"@)
    } else if begins(s, "http://"@) {
        rebegun(s, "http://"@, "ws://"@)
    } else {
        s
    };
    if begins(t, "ws://"@) || begins(t, "wss://"@) {
        t
    } else {
        "wss://"@ + t
    }
}

/// Puts one beginning of a text in place of another.
fn rebegin(s: &str, from: &str, to: &str) -> (r: String)
    requires
        begins(s@, from@),
    ensures
        r@ == rebegun(s@, from@, to@),
{
    let c = chars_of(s);
    let n = chars_of(from).len();
    let rest = text_of(&c, n, c.len());
    proof {
        assert(rest@ =~= s@.skip(from@.len() as int));
    }
    let mut r = to.to_owned();
    r.append(rest.as_str());
    r
}

/// The address of a server as a web socket takes it.
pub fn normalize_url(server_url: &str) -> (r: String)
    ensures
        r@ == ws_url(server_url@),
{
    let s = trim_text(server_url);
    let t: String = if text_begins(s.as_str(), "https://") {
        rebegin(s.as_str(), "https://", "wss://")
    } else if text_begins(s.as_str(), "http://") {
        rebegin(s.as_str(), "http://", "ws://")
    } else {
        s
    };
    if text_begins(t.as_str(), "ws://") || text_begins(t.as_str(), "wss://") {
        t
    } else {
        let mut r = "wss://".to_owned();
        r.append(t.as_str());
        r
    }
}

/// The address always names a web socket.
pub proof fn url_is_ws(server_url: Seq<char>)
    ensures
        begins(ws_url(server_url), "ws://"@) || begins(ws_url(server_url), "wss://"@),
{
    let u = ws_url(server_url);
    if !begins(u, "ws://"@) && !begins(u, "wss://"@) {
        let s = trimmed(server_url);
        let t = if begins(s, "https://"@) {
            rebegun(s, "https://"@, "wss://"@)
        } else if begins(s, "http://"@) {
            rebegun(s, "http://"@, "ws://"@)
        } else {
            s
        };
        assert(("wss://"@ + t).take("wss://"@.len() as int) =~= "wss://"@);
    }
}

} // verus!
