//! Who may join a room.
use vstd::prelude::*;
use vstd::string::*;
use vstd::utf8::encode_utf8;

use crate::document::firelite_doc::{Doc, FireLiteDoc};
use crate::document::value::{items_view, parts_view, Val, Value};
use crate::engine::engine::Hako;
use crate::engine::files::FileReads;
use crate::engine::store::got;
use crate::error::HakoError;
use crate::sync_guard::{hex, hex_len, hex_text, sha256, sha256_digest};
use crate::text::{encode_utf8_injective, same_text};

verus! {

/// The collection of the rules of groups: one document for each name of a room.
pub fn groups_collection() -> (s: &'static str)
    ensures
        s@ == "__groups"@,
{
    "__groups"
}

/// The hash of an API key.
pub open spec fn api_key_hash(key: Seq<char>) -> Seq<char> {
    hex(sha256_digest(encode_utf8(key)))
}

/// The hash of an API key.
pub fn hash_api_key(key: &str) -> (s: String)
    ensures
        s@ == api_key_hash(key@),
        s@.len() == 64,
{
    let d = sha256(key.as_bytes());
    proof {
        assert(d@.take(32) =~= d@);
        hex_len(d@);
    }
    hex_text(&d, 32)
}

/// Whether two texts are the same. It takes as long wherever they differ.
pub fn timing_safe_eq(a: &str, b: &str) -> (r: bool)
    ensures
        r == (a@ == b@),
{
    let x = a.as_bytes();
    let y = b.as_bytes();
    proof {
        if x@ == y@ {
            encode_utf8_injective(a@, b@);
        }
    }
    if x.len() != y.len() {
        return false;
    }
    let mut acc: u8 = 0;
    let mut i: usize = 0;
    while i < x.len()
        invariant
            x@ == encode_utf8(a@),
            y@ == encode_utf8(b@),
            x@.len() == y@.len(),
            i <= x@.len(),
            acc == 0 <==> forall|k: int| 0 <= k < i ==> x@[k] == y@[k],
        decreases x@.len() - i,
    {
        let (p, q): (u8, u8) = (x[i], y[i]);
        let before: u8 = acc;
        acc = acc | (p ^ q);
        proof {
            assert((before | (p ^ q)) == 0 <==> before == 0 && p == q) by (bit_vector);
            assert(p == x@[i as int] && q == y@[i as int]);
        }
        i = i + 1;
    }
    proof {
        if acc == 0 {
            assert(x@ =~= y@);
        }
    }
    acc == 0
}

/// The text of a value, where it is one.
pub open spec fn text_val(v: Val) -> Option<Seq<char>> {
    match v {
        Val::String(s) => Some(s),
        _ => None,
    }
}

/// The text of a value, where it is one.
pub fn value_to_string(v: &Value) -> (r: Option<String>)
    ensures
        match (r, text_val(v@)) {
            (Some(s), Some(t)) => s@ == t,
            (None, None) => true,
            _ => false,
        },
{
    proof {
        parts_view(*v);
    }
    match v {
        Value::String(s) => Some(s.clone()),
        _ => None,
    }
}

/// The text under a key of a document, where there is one.
pub open spec fn text_under(d: Doc, key: Seq<char>) -> Option<Seq<char>> {
    if d.map().contains_key(key) {
        text_val(d.map()[key])
    } else {
        None
    }
}

/// The text under a key of a document, where there is one.
pub fn get_text(doc: &FireLiteDoc, key: &str) -> (r: Option<String>)
    ensures
        match (r, text_under(doc@, key@)) {
            (Some(s), Some(t)) => s@ == t,
            (None, None) => true,
            _ => false,
        },
{
    match doc.get(key) {
        Some(v) => value_to_string(v),
        None => None,
    }
}

/// Whether a list of members names anybody.
pub open spec fn has_members(d: Doc) -> bool {
    &&& d.map().contains_key("members"@)
    &&& d.map()["members"@] matches Val::Array(items)
    &&& exists|i: int| 0 <= i < items.len() && (#[trigger] items[i]) is String
}

/// Whether a list of members names a client.
pub open spec fn is_member(d: Doc, client: Seq<char>) -> bool {
    &&& d.map().contains_key("members"@)
    &&& d.map()["members"@] matches Val::Array(items)
    &&& items.contains(Val::String(client))
}

/// Why a client may not join a group by its rules; nothing where it may. Without rules, or
/// with an open group, everybody may. A registered group asks for its key, and, where its
/// list of members names anybody, for a name on it.
pub open spec fn refusal(row: Option<Doc>, api_key: Option<Seq<char>>, client: Seq<char>) -> Option<Seq<char>> {
    match row {
        None => None,
        Some(d) => match text_under(d, "mode"@) {
            None => None,
            Some(mode) => if mode == "open"@ {
                None
            } else if mode == "registered"@ {
                let presented = match api_key {
                    Some(k) => k,
                    None => Seq::empty(),
                };
                match text_under(d, "api_key_hash"@) {
                    Some(expected) => if expected.len() == 0 || api_key_hash(presented) != expected {
                        Some("group requires a valid API key"@)
                    } else if has_members(d) && !is_member(d, client) {
                        Some("client not registered for group"@)
                    } else {
                        None
                    },
                    None => Some("group requires a valid API key"@),
                }
            } else {
                Some("unknown group mode '"@ + mode + "'"@)
            },
        },
    }
}

/// The members that a document lists: whether there are any, and whether a client is one.
fn find_member(doc: &FireLiteDoc, client: &str) -> (r: (bool, bool))
    ensures
        r.0 == has_members(doc@),
        r.1 == is_member(doc@, client@),
{
    let v = match doc.get("members") {
        Some(v) => v,
        None => {
            return (false, false);
        },
    };
    proof {
        parts_view(*v);
    }
    if let Value::Array(items) = v {
        let ghost all = items_view(items@);
        let mut any: bool = false;
        let mut found: bool = false;
        let mut i: usize = 0;
        while i < items.len()
            invariant
                all == items_view(items@),
                i <= items@.len(),
                any == exists|k: int| 0 <= k < i && (#[trigger] all[k]) is String,
                found == exists|k: int| 0 <= k < i && #[trigger] all[k] == Val::String(client@),
            decreases items@.len() - i,
        {
            proof {
                parts_view(items@[i as int]);
                assert(all[i as int] == items@[i as int]@);
            }
            if let Value::String(s) = &items[i] {
                any = true;
                if same_text(s.as_str(), client) {
                    found = true;
                }
            }
            i = i + 1;
        }
        proof {
            assert(doc@.map()["members"@] == Val::Array(all));
            if found {
                let k = choose|k: int| 0 <= k < i && #[trigger] all[k] == Val::String(client@);
                assert(all.contains(Val::String(client@)));
            }
        }
        (any, found)
    } else {
        (false, false)
    }
}

/// Whether a client may join a group by its rules; the reason where it may not.
pub fn group_decision(row: Option<&FireLiteDoc>, api_key: Option<&str>, client_id: &str) -> (r: Result<(), String>)
    ensures
        match (r, refusal(
            match row {
                Some(d) => Some(d@),
                None => None,
            },
            match api_key {
                Some(k) => Some(k@),
                None => None,
            },
            client_id@,
        )) {
            (Ok(_), None) => true,
            (Err(e), Some(why)) => e@ == why,
            _ => false,
        },
{
    let doc = match row {
        Some(d) => d,
        None => {
            return Ok(());
        },
    };
    let mode = match get_text(doc, "mode") {
        Some(m) => m,
        None => {
            return Ok(());
        },
    };
    if same_text(mode.as_str(), "open") {
        return Ok(());
    }
    if same_text(mode.as_str(), "registered") {
        let presented = match api_key {
            Some(k) => k,
            None => "",
        };
        proof {
            reveal_strlit("");
            assert(""@ =~= Seq::<char>::empty());
        }
        let ok: bool = match get_text(doc, "api_key_hash") {
            Some(expected) => {
                let hash = hash_api_key(presented);
                let blank = same_text(expected.as_str(), "");
                proof {
                    if expected@.len() == 0 {
                        assert(expected@ =~= ""@);
                    }
                }
                !blank && timing_safe_eq(hash.as_str(), expected.as_str())
            },
            None => false,
        };
        if !ok {
            return Err("group requires a valid API key".to_owned());
        }
        let (any, found) = find_member(doc, client_id);
        if any && !found {
            return Err("client not registered for group".to_owned());
        }
        return Ok(());
    }
    let mut why = "unknown group mode '".to_owned();
    why.append(mode.as_str());
    why.append("'");
    Err(why)
}

/// The rules of a group as a read gave them; none where it failed.
pub open spec fn rules_row(r: Result<Option<FireLiteDoc>, HakoError>) -> Option<Doc> {
    match r {
        Ok(Some(d)) => Some(d@),
        _ => None,
    }
}

/// Whether a client may join the group of a room, by what a read of its rules gave.
pub open spec fn group_checked(
    a: Hako,
    b: Hako,
    reads: FileReads,
    room: Seq<char>,
    api_key: Option<Seq<char>>,
    client: Seq<char>,
    r: Result<(), String>,
) -> bool {
    exists|row: Result<Option<FireLiteDoc>, HakoError>| #[trigger]
        got(a, b, reads, "__groups"@, room, row) && match (r, refusal(rules_row(row), api_key, client)) {
            (Ok(_), None) => true,
            (Err(e), Some(why)) => e@ == why,
            _ => false,
        }
}

/// Whether a client may join the group of a room by the rules that the store keeps for it.
pub fn check_group_access(
    db: &mut Hako,
    room_name: &str,
    api_key: Option<&str>,
    client_id: &str,
    reads: &FileReads,
) -> (r: Result<(), String>)
    requires
        old(db).wf(),
        reads.wf(),
    ensures
        final(db).wf(),
        group_checked(*old(db), *final(db), *reads, room_name@, match api_key {
            Some(k) => Some(k@),
            None => None,
        }, client_id@, r),
{
    let row = db.get(groups_collection(), room_name, reads);
    let answer = match &row {
        Ok(Some(d)) => group_decision(Some(d), api_key, client_id),
        _ => group_decision(None, api_key, client_id),
    };
    proof {
        assert(got(*old(db), *db, *reads, "__groups"@, room_name@, row));
    }
    answer
}

} // verus!
