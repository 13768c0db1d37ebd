//! JSON texts.
use vstd::prelude::*;
use vstd::string::*;

use crate::document::firelite_doc::{Doc, FireLiteDoc};
use crate::document::json::{
    entries_view, json_parts_view, list_view, lookup, put_fields, put_json_fields, val_json, Js, Json, JsonNumber,
};
use crate::document::json_back::{fields_are_found, keys_ascend};
use crate::sorted_map::SortedMap;
use crate::util::decimal::{
    digit, digits, digits_are_read, push_digits, push_signed, read_digits, signed_decimal, signed_is_read,
};

verus! {

/// A character inside a JSON string: the quote, the backslash and the control characters are
/// escaped, and every other character stands for itself.
pub open spec fn escaped(c: char) -> Seq<char> {
    if c == '"' {
        seq!['\\', '"']
    } else if c == '\\' {
        seq!['\\', '\\']
    } else if c == '\u{8}' {
        seq!['\\', 'b']
    } else if c == '\t' {
        seq!['\\', 't']
    } else if c == '\n' {
        seq!['\\', 'n']
    } else if c == '\u{c}' {
        seq!['\\', 'f']
    } else if c == '\r' {
        seq!['\\', 'r']
    } else if 0x20 > c as nat {
        seq!['\\', 'u', '0', '0', digit(c as nat / 16), digit(c as nat % 16)]
    } else {
        seq![c]
    }
}

/// The characters of a text inside a JSON string.
pub open spec fn all_escaped(s: Seq<char>) -> Seq<char>
    decreases s.len(),
{
    if s.len() == 0 {
        Seq::empty()
    } else {
        all_escaped(s.drop_last()) + escaped(s.last())
    }
}

/// A text as a JSON string.
pub open spec fn quoted(s: Seq<char>) -> Seq<char> {
    seq!['"'] + all_escaped(s) + seq!['"']
}

/// `serde_json::to_string` of a text: the text as a JSON string, between quotes and with what
/// must be escaped escaped.
#[verifier::external_body]
fn quote(s: &str) -> (r: String)
    ensures
        r@ == quoted(s@),
{
    serde_json::to_string(s).unwrap_or_default()
}

/// The texts of floating-point numbers by their bits.
pub type FloatTexts = SortedMap<u64, String>;

/// A number as a text. Of a floating-point number the text is given; one without a text has
/// none in JSON.
pub open spec fn number_text(n: JsonNumber, floats: Map<u64, String>) -> Seq<char> {
    match n {
        JsonNumber::PosInt(u) => digits(u as nat, 10),
        JsonNumber::NegInt(i) => signed_decimal(i as int),
        JsonNumber::Float(b) => if floats.contains_key(b) {
            floats[b]@
        } else {
            "null"@
        },
    }
}

/// A JSON value as a text, without spaces.
pub open spec fn js_text(j: Js, floats: Map<u64, String>) -> Seq<char>
    decreases j,
{
    match j {
        Js::Null => "null"@,
        Js::Bool(true) => "true"@,
        Js::Bool(false) => "false"@,
        Js::Number(n) => number_text(n, floats),
        Js::Text(s) => quoted(s),
        Js::List(items) => "["@ + list_text(items, floats) + "]"@,
        Js::Object(entries) => "{"@ + entries_text(entries, floats) + "}"@,
    }
}

/// JSON values with commas between.
pub open spec fn list_text(items: Seq<Js>, floats: Map<u64, String>) -> Seq<char>
    decreases items,
{
    if items.len() == 0 {
        Seq::empty()
    } else if items.len() == 1 {
        js_text(items.last(), floats)
    } else {
        list_text(items.drop_last(), floats) + ","@ + js_text(items.last(), floats)
    }
}

/// Entries with commas between.
pub open spec fn entries_text(entries: Seq<(Seq<char>, Js)>, floats: Map<u64, String>) -> Seq<char>
    decreases entries,
{
    if entries.len() == 0 {
        Seq::empty()
    } else {
        let e = quoted(entries.last().0) + ":"@ + js_text(entries.last().1, floats);
        if entries.len() == 1 {
            e
        } else {
            entries_text(entries.drop_last(), floats) + ","@ + e
        }
    }
}

/// Appends a JSON value as a text.
fn push_json(out: &mut String, j: &Json, floats: &FloatTexts)
    requires
        floats.wf(),
    ensures
        final(out)@ == old(out)@ + js_text(j@, floats@),
    decreases j, 1nat,
{
    let ghost before = out@;
    proof {
        json_parts_view(*j);
    }
    match j {
        Json::Null => out.append("null"),
        Json::Bool(b) => if *b {
            out.append("true")
        } else {
            out.append("false")
        },
        Json::Number(n) => match n {
            JsonNumber::PosInt(u) => push_digits(out, *u, 10),
            JsonNumber::NegInt(i) => push_signed(out, *i),
            JsonNumber::Float(b) => match floats.get(b) {
                Some(t) => out.append(t.as_str()),
                None => out.append("null"),
            },
        },
        Json::Text(s) => {
            let q = quote(s.as_str());
            out.append(q.as_str());
        },
        Json::List(items) => {
            out.append("[");
            push_list(out, items, floats);
            out.append("]");
            proof {
                assert(out@ =~= before + js_text(j@, floats@));
            }
        },
        Json::Object(entries) => {
            out.append("{");
            push_entries(out, entries, floats);
            out.append("}");
            proof {
                assert(out@ =~= before + js_text(j@, floats@));
            }
        },
    }
}

/// Appends JSON values with commas between.
fn push_list(out: &mut String, items: &Vec<Json>, floats: &FloatTexts)
    requires
        floats.wf(),
    ensures
        final(out)@ == old(out)@ + list_text(list_view(items@), floats@),
    decreases items, 0nat,
{
    let ghost before = out@;
    let ghost m = list_view(items@);
    let mut i: usize = 0;
    proof {
        assert(m.take(0) =~= Seq::<Js>::empty());
        assert(before + list_text(m.take(0), floats@) =~= before);
    }
    while i < items.len()
        invariant
            floats.wf(),
            m == list_view(items@),
            i <= items@.len(),
            out@ == before + list_text(m.take(i as int), floats@),
        decreases items@.len() - i,
    {
        if i > 0 {
            out.append(",");
        }
        push_json(out, &items[i], floats);
        proof {
            let t = m.take(i + 1);
            assert(t.drop_last() =~= m.take(i as int));
            assert(t.last() == m[i as int]);
            assert(out@ =~= before + list_text(t, floats@));
        }
        i = i + 1;
    }
    proof {
        assert(m.take(i as int) =~= m);
    }
}

/// Appends entries with commas between.
fn push_entries(out: &mut String, entries: &Vec<(String, Json)>, floats: &FloatTexts)
    requires
        floats.wf(),
    ensures
        final(out)@ == old(out)@ + entries_text(entries_view(entries@), floats@),
    decreases entries, 0nat,
{
    let ghost before = out@;
    let ghost m = entries_view(entries@);
    let mut i: usize = 0;
    proof {
        assert(m.take(0) =~= Seq::<(Seq<char>, Js)>::empty());
        assert(before + entries_text(m.take(0), floats@) =~= before);
    }
    while i < entries.len()
        invariant
            floats.wf(),
            m == entries_view(entries@),
            i <= entries@.len(),
            out@ == before + entries_text(m.take(i as int), floats@),
        decreases entries@.len() - i,
    {
        if i > 0 {
            out.append(",");
        }
        let q = quote(entries[i].0.as_str());
        out.append(q.as_str());
        out.append(":");
        push_json(out, &entries[i].1, floats);
        proof {
            let t = m.take(i + 1);
            assert(t.drop_last() =~= m.take(i as int));
            assert(t.last() == m[i as int]);
            assert(out@ =~= before + entries_text(t, floats@));
        }
        i = i + 1;
    }
    proof {
        assert(m.take(i as int) =~= m);
    }
}

/// A JSON value as a text. `floats` holds the texts of the finite floating-point numbers in
/// it.
pub fn json_to_text(j: &Json, floats: &FloatTexts) -> (s: String)
    requires
        floats.wf(),
    ensures
        s@ == js_text(j@, floats@),
{
    let mut out = String::new();
    push_json(&mut out, j, floats);
    proof {
        assert(Seq::<char>::empty() + js_text(j@, floats@) =~= js_text(j@, floats@));
    }
    out
}

/// The fields of a document as a JSON object, sorted by key.
pub open spec fn doc_text(d: Doc, floats: Map<u64, String>) -> Seq<char> {
    js_text(Js::Object(put_fields(Seq::empty(), d.fields)), floats)
}

/// The fields of a document as a JSON text, sorted by key. `floats` holds the texts of the
/// finite floating-point numbers in it.
pub fn doc_to_json(doc: &FireLiteDoc, floats: &FloatTexts) -> (s: String)
    requires
        floats.wf(),
    ensures
        s@ == doc_text(doc@, floats@),
{
    let mut entries: Vec<(String, Json)> = Vec::new();
    proof {
        assert(entries_view(entries@) =~= Seq::<(Seq<char>, Js)>::empty());
    }
    put_json_fields(&mut entries, &doc.fields);
    let mut out = "{".to_owned();
    push_entries(&mut out, &entries, floats);
    out.append("}");
    out
}

/// Documents as JSON objects with commas between.
pub open spec fn docs_text(docs: Seq<Doc>, floats: Map<u64, String>) -> Seq<char>
    decreases docs.len(),
{
    if docs.len() == 0 {
        Seq::empty()
    } else if docs.len() == 1 {
        doc_text(docs.last(), floats)
    } else {
        docs_text(docs.drop_last(), floats) + ","@ + doc_text(docs.last(), floats)
    }
}

/// The texts of what is neither a list nor an object: the three words, a whole number by its
/// digits, and a text between quotes.
pub proof fn plain_texts(b: bool, u: u64, i: i64, f: u64, s: Seq<char>, floats: Map<u64, String>)
    ensures
        js_text(Js::Null, floats) == seq!['n', 'u', 'l', 'l'],
        js_text(Js::Bool(b), floats) == (if b {
            seq!['t', 'r', 'u', 'e']
        } else {
            seq!['f', 'a', 'l', 's', 'e']
        }),
        read_digits(js_text(Js::Number(JsonNumber::PosInt(u)), floats), 10) == u,
        i >= 0 ==> read_digits(js_text(Js::Number(JsonNumber::NegInt(i)), floats), 10) == i,
        i < 0 ==> js_text(Js::Number(JsonNumber::NegInt(i)), floats)[0] == '-' && read_digits(
            js_text(Js::Number(JsonNumber::NegInt(i)), floats).drop_first(),
            10,
        ) == -i,
        floats.contains_key(f) ==> js_text(Js::Number(JsonNumber::Float(f)), floats) == floats[f]@,
        js_text(Js::Text(s), floats).len() >= s.len() + 2,
        js_text(Js::Text(s), floats)[0] == '"',
        js_text(Js::Text(s), floats).last() == '"',
        (forall|k: int| 0 <= k < s.len() ==> (#[trigger] s[k]) != '"' && s[k] != '\\' && s[k] as nat >= 0x20) ==> js_text(
            Js::Text(s),
            floats,
        ) == seq!['"'] + s + seq!['"'],
{
    reveal_strlit("null");
    reveal_strlit("true");
    reveal_strlit("false");
    assert("null"@ =~= seq!['n', 'u', 'l', 'l']);
    assert("true"@ =~= seq!['t', 'r', 'u', 'e']);
    assert("false"@ =~= seq!['f', 'a', 'l', 's', 'e']);
    digits_are_read(u as nat, 10);
    signed_is_read(i as int);
    escaped_len(s);
    assert(quoted(s).last() == '"');
    if forall|k: int| 0 <= k < s.len() ==> (#[trigger] s[k]) != '"' && s[k] != '\\' && s[k] as nat >= 0x20 {
        plain_stays(s);
    }
}

proof fn escaped_len(s: Seq<char>)
    ensures
        all_escaped(s).len() >= s.len(),
    decreases s.len(),
{
    if s.len() > 0 {
        escaped_len(s.drop_last());
    }
}

proof fn plain_stays(s: Seq<char>)
    requires
        forall|k: int| 0 <= k < s.len() ==> (#[trigger] s[k]) != '"' && s[k] != '\\' && s[k] as nat >= 0x20,
    ensures
        all_escaped(s) == s,
    decreases s.len(),
{
    if s.len() > 0 {
        let t = s.drop_last();
        assert forall|k: int| 0 <= k < t.len() implies (#[trigger] t[k]) != '"' && t[k] != '\\' && t[k] as nat >= 0x20 by {
            assert(t[k] == s[k]);
        }
        plain_stays(t);
        assert(s[s.len() - 1] == s.last());
        assert(all_escaped(s) =~= s);
    }
}

/// The text of a list: its values between brackets, with a comma between two, each by its own
/// text and in their order.
pub proof fn lists_are_joined(a: Seq<Js>, b: Seq<Js>, x: Js, floats: Map<u64, String>)
    ensures
        js_text(Js::List(Seq::empty()), floats) == seq!['[', ']'],
        js_text(Js::List(seq![x]), floats) == seq!['['] + js_text(x, floats) + seq![']'],
        a.len() > 0 && b.len() > 0 ==> js_text(Js::List(a + b), floats) == js_text(Js::List(a), floats).drop_last() + seq![
            ',',
        ] + js_text(Js::List(b), floats).drop_first(),
    decreases b.len(),
{
    reveal_strlit("[");
    reveal_strlit("]");
    reveal_strlit(",");
    assert("["@ =~= seq!['[']);
    assert("]"@ =~= seq![']']);
    assert(","@ =~= seq![',']);
    let e = Seq::<Js>::empty();
    assert(list_text(e, floats) =~= Seq::<char>::empty());
    assert(js_text(Js::List(e), floats) =~= seq!['[', ']']);
    assert(seq![x].last() == x);
    if a.len() > 0 && b.len() > 0 {
        list_is_joined(a, b, floats);
        assert(js_text(Js::List(a + b), floats) =~= js_text(Js::List(a), floats).drop_last() + seq![','] + js_text(
            Js::List(b),
            floats,
        ).drop_first());
    }
}

proof fn list_is_joined(a: Seq<Js>, b: Seq<Js>, floats: Map<u64, String>)
    requires
        a.len() > 0,
        b.len() > 0,
    ensures
        list_text(a + b, floats) == list_text(a, floats) + ","@ + list_text(b, floats),
    decreases b.len(),
{
    assert((a + b).drop_last() =~= a + b.drop_last());
    assert((a + b).last() == b.last());
    if b.len() == 1 {
        assert(a + b.drop_last() =~= a);
        assert(list_text(a + b, floats) =~= list_text(a, floats) + ","@ + list_text(b, floats));
    } else {
        list_is_joined(a, b.drop_last(), floats);
        assert(list_text(a + b, floats) =~= list_text(a, floats) + ","@ + list_text(b, floats));
    }
}

/// The text of an object: its entries between braces, with a comma between two, each by its
/// key as a text, a colon and its value, in their order.
pub proof fn objects_are_joined(
    a: Seq<(Seq<char>, Js)>,
    b: Seq<(Seq<char>, Js)>,
    k: Seq<char>,
    v: Js,
    floats: Map<u64, String>,
)
    ensures
        js_text(Js::Object(Seq::empty()), floats) == seq!['{', '}'],
        js_text(Js::Object(seq![(k, v)]), floats) == seq!['{'] + js_text(Js::Text(k), floats) + seq![':'] + js_text(
            v,
            floats,
        ) + seq!['}'],
        a.len() > 0 && b.len() > 0 ==> js_text(Js::Object(a + b), floats) == js_text(
            Js::Object(a),
            floats,
        ).drop_last() + seq![','] + js_text(Js::Object(b), floats).drop_first(),
{
    reveal_strlit("{");
    reveal_strlit("}");
    reveal_strlit(",");
    reveal_strlit(":");
    assert("{"@ =~= seq!['{']);
    assert("}"@ =~= seq!['}']);
    assert(","@ =~= seq![',']);
    assert(":"@ =~= seq![':']);
    let e = Seq::<(Seq<char>, Js)>::empty();
    assert(entries_text(e, floats) =~= Seq::<char>::empty());
    assert(js_text(Js::Object(e), floats) =~= seq!['{', '}']);
    assert(seq![(k, v)].last() == (k, v));
    assert(js_text(Js::Object(seq![(k, v)]), floats) =~= seq!['{'] + js_text(Js::Text(k), floats) + seq![':'] + js_text(
        v,
        floats,
    ) + seq!['}']);
    if a.len() > 0 && b.len() > 0 {
        entries_are_joined(a, b, floats);
        assert(js_text(Js::Object(a + b), floats) =~= js_text(Js::Object(a), floats).drop_last() + seq![','] + js_text(
            Js::Object(b),
            floats,
        ).drop_first());
    }
}

proof fn entries_are_joined(a: Seq<(Seq<char>, Js)>, b: Seq<(Seq<char>, Js)>, floats: Map<u64, String>)
    requires
        a.len() > 0,
        b.len() > 0,
    ensures
        entries_text(a + b, floats) == entries_text(a, floats) + ","@ + entries_text(b, floats),
    decreases b.len(),
{
    assert((a + b).drop_last() =~= a + b.drop_last());
    assert((a + b).last() == b.last());
    if b.len() == 1 {
        assert(a + b.drop_last() =~= a);
        assert(entries_text(a + b, floats) =~= entries_text(a, floats) + ","@ + entries_text(b, floats));
    } else {
        entries_are_joined(a, b.drop_last(), floats);
        assert(entries_text(a + b, floats) =~= entries_text(a, floats) + ","@ + entries_text(b, floats));
    }
}

/// The text of a document is that of an object with ascending keys, in which every field is
/// found under its key by its value, and nothing else.
pub proof fn document_text_holds_fields(d: Doc, floats: Map<u64, String>, x: Seq<char>) -> (entries: Seq<(Seq<char>, Js)>)
    ensures
        doc_text(d, floats) == js_text(Js::Object(entries), floats),
        keys_ascend(entries),
        forall|i: int|
            0 <= i < d.fields.len() && (#[trigger] d.fields[i]).0 == x && (forall|j: int|
                i < j < d.fields.len() ==> (#[trigger] d.fields[j]).0 != x) ==> lookup(entries, x) == Some(
                val_json(d.fields[i].1),
            ),
        (forall|i: int| 0 <= i < d.fields.len() ==> (#[trigger] d.fields[i]).0 != x) ==> lookup(entries, x) is None,
{
    let none = Seq::<(Seq<char>, Js)>::empty();
    fields_are_found(none, d.fields, x);
    put_fields(none, d.fields)
}

/// The texts of documents stand one behind the other with a comma between two.
pub proof fn documents_are_joined(a: Seq<Doc>, b: Seq<Doc>, d: Doc, floats: Map<u64, String>)
    ensures
        docs_text(Seq::empty(), floats).len() == 0,
        docs_text(seq![d], floats) == doc_text(d, floats),
        a.len() > 0 && b.len() > 0 ==> docs_text(a + b, floats) == docs_text(a, floats) + seq![','] + docs_text(b, floats),
    decreases b.len(),
{
    reveal_strlit(",");
    assert(","@ =~= seq![',']);
    assert(seq![d].last() == d);
    if a.len() > 0 && b.len() > 0 {
        assert((a + b).drop_last() =~= a + b.drop_last());
        assert((a + b).last() == b.last());
        if b.len() == 1 {
            assert(a + b.drop_last() =~= a);
        } else {
            documents_are_joined(a, b.drop_last(), d, floats);
        }
        assert(docs_text(a + b, floats) =~= docs_text(a, floats) + seq![','] + docs_text(b, floats));
    }
}

} // verus!
