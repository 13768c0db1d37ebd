//! JSON texts that callers hand over, read with `serde_json`.
use serde_json::Value;
use vstd::prelude::*;
use vstd::string::*;

use crate::document::firelite_doc::names_view;
use crate::document::json::{entries_view, json_parts_view, list_view, Js, Json, JsonNumber};

verus! {

/// A `serde_json::Value`.
#[verifier::external_body]
pub struct Parsed {
    value: Value,
}

/// What a value that was read holds.
pub uninterp spec fn parsed_js(p: Parsed) -> Js;

/// A value that was read, one level of it: what is inside a list or an object is still as it
/// was read.
pub enum Opened {
    Null,
    Bool(bool),
    Number(JsonNumber),
    Text(String),
    List(Vec<Parsed>),
    Object(Vec<(String, Parsed)>),
}

/// What values that were read hold.
pub open spec fn parsed_list(s: Seq<Parsed>) -> Seq<Js> {
    Seq::new(s.len(), |i: int| parsed_js(s[i]))
}

/// What the entries of an object that was read hold.
pub open spec fn parsed_entries(s: Seq<(String, Parsed)>) -> Seq<(Seq<char>, Js)> {
    Seq::new(s.len(), |i: int| (s[i].0@, parsed_js(s[i].1)))
}

/// What a value with one level of it opened holds.
pub open spec fn opened_js(o: Opened) -> Js {
    match o {
        Opened::Null => Js::Null,
        Opened::Bool(b) => Js::Bool(b),
        Opened::Number(n) => Js::Number(n),
        Opened::Text(s) => Js::Text(s@),
        Opened::List(items) => Js::List(parsed_list(items@)),
        Opened::Object(entries) => Js::Object(parsed_entries(entries@)),
    }
}

/// The values of the list that a text holds; none where it holds no list.
pub uninterp spec fn json_items(text: Seq<char>) -> Option<Seq<Js>>;

/// The names of the list of texts that a text holds, each once and in order; none where it
/// holds no such list.
pub uninterp spec fn json_names(text: Seq<char>) -> Option<Seq<Seq<char>>>;

/// `serde_json::from_str` to a list of values: what it gives depends on the text alone.
#[verifier::external_body]
fn parse_values(text: &str) -> (r: Option<Vec<Parsed>>)
    ensures
        match (r, json_items(text@)) {
            (Some(v), Some(s)) => parsed_list(v@) == s,
            (None, None) => true,
            _ => false,
        },
{
    match serde_json::from_str::<Vec<Value>>(text) {
        Ok(list) => Some(list.into_iter().map(|value| Parsed { value }).collect()),
        Err(_) => None,
    }
}

/// `serde_json::Value`: which of its variants a value is, and what that variant holds. A
/// number is an integer that is not negative (`Number::as_u64`), a negative integer
/// (`Number::as_i64`), or else a floating-point number, taken by its bits
/// (`Number::as_f64`).
#[verifier::external_body]
fn open_value(p: Parsed) -> (r: Opened)
    ensures
        opened_js(r) == parsed_js(p),
{
    match p.value {
        Value::Null => Opened::Null,
        Value::Bool(b) => Opened::Bool(b),
        Value::String(s) => Opened::Text(s),
        Value::Number(n) => Opened::Number(match (n.as_u64(), n.as_i64()) {
            (Some(u), _) => JsonNumber::PosInt(u),
            (_, Some(i)) => JsonNumber::NegInt(i),
            _ => JsonNumber::Float(n.as_f64().unwrap_or_default().to_bits()),
        }),
        Value::Array(a) => Opened::List(a.into_iter().map(|value| Parsed { value }).collect()),
        Value::Object(m) => Opened::Object(m.into_iter().map(|(k, value)| (k, Parsed { value })).collect()),
    }
}

/// `serde_json::from_str` to a set of texts: what it gives depends on the text alone.
#[verifier::external_body]
pub(crate) fn parse_names(text: &str) -> (r: Option<Vec<String>>)
    ensures
        match (r, json_names(text@)) {
            (Some(v), Some(s)) => names_view(v@) == s,
            (None, None) => true,
            _ => false,
        },
{
    match serde_json::from_str::<std::collections::BTreeSet<String>>(text) {
        Ok(set) => Some(set.into_iter().collect()),
        Err(_) => None,
    }
}

/// Things in the opposite order.
fn reversed<T>(v: Vec<T>) -> (r: Vec<T>)
    ensures
        r@ == v@.reverse(),
{
    let mut rest = v;
    let mut r: Vec<T> = Vec::new();
    while rest.len() > 0
        invariant
            rest@.len() + r@.len() == v@.len(),
            rest@ == v@.take(rest@.len() as int),
            r@ == v@.skip(rest@.len() as int).reverse(),
        decreases rest@.len(),
    {
        let ghost n = rest@.len() as int;
        if let Some(x) = rest.pop() {
            r.push(x);
            proof {
                assert(v@.take(n).drop_last() =~= v@.take(n - 1));
                assert(r@ =~= v@.skip(n - 1).reverse());
            }
        }
    }
    proof {
        assert(v@.skip(0) =~= v@);
    }
    r
}

/// A value that was read, as the library holds it.
fn json_of(p: Parsed) -> (j: Json)
    ensures
        j@ == parsed_js(p),
    decreases parsed_js(p),
{
    let ghost whole = parsed_js(p);
    let j = match open_value(p) {
        Opened::Null => Json::Null,
        Opened::Bool(b) => Json::Bool(b),
        Opened::Number(n) => Json::Number(n),
        Opened::Text(s) => Json::Text(s),
        Opened::List(items) => {
            proof {
                assert(decreases_to!(whole => whole->List_0));
            }
            Json::List(list_of(items))
        },
        Opened::Object(entries) => {
            proof {
                assert(decreases_to!(whole => whole->Object_0));
            }
            Json::Object(entries_of(entries))
        },
    };
    proof {
        json_parts_view(j);
    }
    j
}

/// Values that were read, as the library holds them.
fn list_of(values: Vec<Parsed>) -> (r: Vec<Json>)
    ensures
        list_view(r@) == parsed_list(values@),
    decreases parsed_list(values@),
{
    let ghost all = values@;
    let mut rest = reversed(values);
    let mut list: Vec<Json> = Vec::new();
    proof {
        assert(list_view(list@) =~= parsed_list(all).take(0));
    }
    while rest.len() > 0
        invariant
            rest@.len() + list@.len() == all.len(),
            rest@ == all.skip(list@.len() as int).reverse(),
            all == values@,
            list_view(list@) == parsed_list(all).take(list@.len() as int),
        decreases rest@.len(),
    {
        let ghost k = list@.len() as int;
        let ghost before = list@;
        if let Some(x) = rest.pop() {
            let ghost e = parsed_list(all)[k];
            proof {
                assert(x == all[k]);
                assert(decreases_to!(parsed_list(all) => parsed_list(all)[k]));
            }
            list.push(json_of(x));
            proof {
                assert(rest@ =~= all.skip(k + 1).reverse());
                assert(list_view(list@) =~= list_view(before).push(e));
                assert(list_view(list@) =~= parsed_list(all).take(k + 1));
            }
        }
    }
    proof {
        assert(parsed_list(all).take(all.len() as int) =~= parsed_list(all));
    }
    list
}

/// The entries of an object that was read, as the library holds them.
fn entries_of(values: Vec<(String, Parsed)>) -> (r: Vec<(String, Json)>)
    ensures
        entries_view(r@) == parsed_entries(values@),
    decreases parsed_entries(values@),
{
    let ghost all = values@;
    let mut rest = reversed(values);
    let mut list: Vec<(String, Json)> = Vec::new();
    proof {
        assert(entries_view(list@) =~= parsed_entries(all).take(0));
    }
    while rest.len() > 0
        invariant
            rest@.len() + list@.len() == all.len(),
            rest@ == all.skip(list@.len() as int).reverse(),
            all == values@,
            entries_view(list@) == parsed_entries(all).take(list@.len() as int),
        decreases rest@.len(),
    {
        let ghost k = list@.len() as int;
        let ghost before = list@;
        if let Some(x) = rest.pop() {
            let ghost e = parsed_entries(all)[k];
            proof {
                assert(x == all[k]);
                assert(decreases_to!(parsed_entries(all) => parsed_entries(all)[k].1));
            }
            list.push((x.0, json_of(x.1)));
            proof {
                assert(rest@ =~= all.skip(k + 1).reverse());
                assert(entries_view(list@) =~= entries_view(before).push(e));
                assert(entries_view(list@) =~= parsed_entries(all).take(k + 1));
            }
        }
    }
    proof {
        assert(parsed_entries(all).take(all.len() as int) =~= parsed_entries(all));
    }
    list
}

/// The values of the list that a text holds.
pub fn parse_items(text: &str) -> (r: Option<Vec<Json>>)
    ensures
        match (r, json_items(text@)) {
            (Some(v), Some(s)) => list_view(v@) == s,
            (None, None) => true,
            _ => false,
        },
{
    match parse_values(text) {
        None => None,
        Some(values) => Some(list_of(values)),
    }
}

} // verus!
