//! Who may do what, and what never leaves the store.
use vstd::prelude::*;
use vstd::string::*;

use crate::config::HakoConfig;
use crate::document::firelite_doc::{names_contain, names_view};
use crate::engine::types::{AccessOp, SecurityRule};
use crate::text::{chars_of, same_text};

verus! {

/// Whether a text begins with another.
pub open spec fn begins(s: Seq<char>, prefix: Seq<char>) -> bool {
    prefix.len() <= s.len() && s.take(prefix.len() as int) == prefix
}

/// Whether a text begins with another.
pub fn text_begins(s: &str, prefix: &str) -> (r: bool)
    ensures
        r == begins(s@, prefix@),
{
    let a = chars_of(s);
    let b = chars_of(prefix);
    if b.len() > a.len() {
        return false;
    }
    let mut i: usize = 0;
    while i < b.len()
        invariant
            a@ == s@,
            b@ == prefix@,
            b@.len() <= a@.len(),
            i <= b@.len(),
            forall|k: int| 0 <= k < i ==> a@[k] == b@[k],
        decreases b@.len() - i,
    {
        if a[i] != b[i] {
            proof {
                assert(s@.take(prefix@.len() as int)[i as int] != prefix@[i as int]);
            }
            return false;
        }
        i = i + 1;
    }
    proof {
        assert(s@.take(prefix@.len() as int) =~= prefix@);
    }
    true
}

/// Whether a rule speaks of an operation on a collection.
pub open spec fn applies(r: SecurityRule, collection: Seq<char>, op: AccessOp) -> bool {
    r.op == op && begins(collection, r.collection_prefix@)
}

/// Whether rules allow an operation on a collection: the last that speaks of it decides,
/// and where none does it is allowed.
pub open spec fn permitted(rules: Seq<SecurityRule>, collection: Seq<char>, op: AccessOp) -> bool
    decreases rules.len(),
{
    if rules.len() == 0 {
        true
    } else if applies(rules.last(), collection, op) {
        rules.last().allow
    } else {
        permitted(rules.drop_last(), collection, op)
    }
}

/// Whether rules allow an operation on a collection.
pub fn allowed(rules: &Vec<SecurityRule>, collection: &str, op: AccessOp) -> (r: bool)
    ensures
        r == permitted(rules@, collection@, op),
{
    let mut n: usize = rules.len();
    proof {
        assert(rules@.take(n as int) =~= rules@);
    }
    while n > 0
        invariant
            n <= rules@.len(),
            permitted(rules@, collection@, op) == permitted(rules@.take(n as int), collection@, op),
        decreases n,
    {
        proof {
            assert(rules@.take(n as int).drop_last() =~= rules@.take(n - 1));
            assert(rules@.take(n as int).last() == rules@[n - 1]);
        }
        let rule = &rules[n - 1];
        if rule.op == op && text_begins(collection, rule.collection_prefix.as_str()) {
            return rule.allow;
        }
        n = n - 1;
    }
    true
}

/// A rule that was added last decides what it speaks of, and changes nothing else.
pub proof fn last_rule_decides(rules: Seq<SecurityRule>, rule: SecurityRule, collection: Seq<char>, op: AccessOp)
    ensures
        applies(rule, collection, op) ==> permitted(rules.push(rule), collection, op) == rule.allow,
        !applies(rule, collection, op) ==> permitted(rules.push(rule), collection, op) == permitted(rules, collection, op),
{
    assert(rules.push(rule).drop_last() =~= rules);
}

/// Whether a collection never replicates: the state of replication, the rooms, the users
/// and the groups.
pub open spec fn sync_excluded(collection: Seq<char>) -> bool {
    ||| collection == "__hako_system"@
    ||| collection == "__hako_rooms"@
    ||| collection == "__users"@
    ||| collection == "__groups"@
}

/// Whether a collection never replicates.
pub fn is_sync_excluded(col: &str) -> (r: bool)
    ensures
        r == sync_excluded(col@),
{
    same_text(col, "__hako_system") || same_text(col, "__hako_rooms") || same_text(col, "__users") || same_text(
        col,
        "__groups",
    )
}

/// Whether a collection never replicates from a store with a configuration.
pub open spec fn withheld(config: HakoConfig, collection: Seq<char>) -> bool {
    sync_excluded(collection) || names_view(config.sync_excluded@).contains(collection)
}

/// Whether a collection never replicates from a store with a configuration.
pub fn is_sync_excluded_effective(config: &HakoConfig, col: &str) -> (r: bool)
    ensures
        r == withheld(*config, col@),
{
    is_sync_excluded(col) || names_contain(&config.sync_excluded, col)
}

/// Whether a collection is encrypted: there is a key, and the list of encrypted
/// collections is absent, empty, or names it.
pub open spec fn encrypted(config: HakoConfig, collection: Seq<char>) -> bool {
    config.encryption_key is Some && match config.encrypted_cols {
        None => true,
        Some(cols) => cols@.len() == 0 || names_view(cols@).contains(collection),
    }
}

/// Whether a collection is encrypted.
pub fn is_collection_encrypted(config: &HakoConfig, collection: &str) -> (r: bool)
    ensures
        r == encrypted(*config, collection@),
{
    match &config.encryption_key {
        None => false,
        Some(_) => match &config.encrypted_cols {
            None => true,
            Some(cols) => cols.len() == 0 || names_contain(cols, collection),
        },
    }
}

/// The secret under which a collection is encrypted, if it is.
pub fn get_encryption_for_col<'a>(config: &'a HakoConfig, collection: &str) -> (r: Option<&'a String>)
    ensures
        r is Some <==> encrypted(*config, collection@),
        r is Some ==> Some(*r->Some_0) == config.encryption_key,
{
    if is_collection_encrypted(config, collection) {
        config.encryption_key.as_ref()
    } else {
        None
    }
}

} // verus!
