//! Values that are kept aside: a document holds links in their place.
use vstd::prelude::*;
use vstd::string::*;
use vstd::utf8::{decode_utf8, encode_utf8, valid_utf8};

use crate::document::decoded::what_was_read_is_read_again;
use crate::document::firelite_doc::{decode_doc, doc_bytes, document_round_trip, map_in_order, Doc, FireLiteDoc};
use crate::document::format::field_fits;
use crate::document::search::sought_by_keys;
use crate::document::value::{copy_bytes, fields_view, parts_view, Val, Value};
use crate::error::{error_message, HakoError};
use crate::sorted_map::{ascending_entry, key_lt, SortedMap};
use crate::text::text_of_utf8;

verus! {

/// A value that is to be written into the blob file.
#[derive(Debug)]
pub struct BlobWork {
    pub key: String,
    pub offset: u64,
    pub data: Vec<u8>,
    /// The document with links in place of its large values.
    pub skeleton: Vec<u8>,
    pub timestamp: i64,
    pub len: u32,
}

/// What such a value is.
pub struct Work {
    pub key: Seq<char>,
    pub offset: u64,
    pub data: Seq<u8>,
    pub skeleton: Seq<u8>,
    pub time: i64,
    pub len: u32,
}

impl View for BlobWork {
    type V = Work;

    open spec fn view(&self) -> Work {
        Work {
            key: self.key@,
            offset: self.offset,
            data: self.data@,
            skeleton: self.skeleton@,
            time: self.timestamp,
            len: self.len,
        }
    }
}

/// What values in a queue are.
pub open spec fn works_view(s: Seq<BlobWork>) -> Seq<Work> {
    Seq::new(s.len(), |i: int| s[i]@)
}

/// The bytes of a value that can be kept aside.
pub open spec fn raw_bytes(v: Val) -> Option<Seq<u8>> {
    match v {
        Val::String(s) => Some(encode_utf8(s)),
        Val::Binary(b) => Some(b),
        _ => None,
    }
}

/// Whether a value is kept aside: a text or bytes above the threshold, where the blob
/// file has room for it at `end`.
pub open spec fn moves(v: Val, threshold: nat, end: nat) -> bool {
    match raw_bytes(v) {
        Some(b) => b.len() > threshold && b.len() <= u32::MAX && end + b.len() <= u64::MAX,
        None => false,
    }
}

/// The end of the blob file after the large values of some fields.
pub open spec fn end_after(fields: Seq<(Seq<char>, Val)>, threshold: nat, end: nat) -> nat
    decreases fields.len(),
{
    if fields.len() == 0 {
        end
    } else {
        let at = end_after(fields.drop_last(), threshold, end);
        if moves(fields.last().1, threshold, at) {
            at + raw_bytes(fields.last().1)->Some_0.len()
        } else {
            at
        }
    }
}

/// Some fields with links in place of their large values.
pub open spec fn linked(fields: Seq<(Seq<char>, Val)>, threshold: nat, end: nat) -> Seq<(Seq<char>, Val)>
    decreases fields.len(),
{
    if fields.len() == 0 {
        fields
    } else {
        let at = end_after(fields.drop_last(), threshold, end);
        let last = fields.last();
        let v = if moves(last.1, threshold, at) {
            Val::BlobLink { offset: at as u64, len: raw_bytes(last.1)->Some_0.len() as u32 }
        } else {
            last.1
        };
        linked(fields.drop_last(), threshold, end).push((last.0, v))
    }
}

/// The large values of some fields, each with its place in the blob file.
pub open spec fn pieces(fields: Seq<(Seq<char>, Val)>, threshold: nat, end: nat) -> Seq<(u64, Seq<u8>)>
    decreases fields.len(),
{
    if fields.len() == 0 {
        Seq::empty()
    } else {
        let at = end_after(fields.drop_last(), threshold, end);
        let before = pieces(fields.drop_last(), threshold, end);
        if moves(fields.last().1, threshold, at) {
            before.push((at as u64, raw_bytes(fields.last().1)->Some_0))
        } else {
            before
        }
    }
}

/// A document with links in place of its large values.
pub open spec fn skeleton_doc(d: Doc, threshold: nat, end: Option<u64>) -> Doc {
    match end {
        Some(e) => Doc { fields: linked(d.fields, threshold, e as nat), time: d.time },
        None => d,
    }
}

/// The end of the blob file after the large values of a document.
pub open spec fn doc_end(d: Doc, threshold: nat, end: Option<u64>) -> Option<u64> {
    match end {
        Some(e) => Some(end_after(d.fields, threshold, e as nat) as u64),
        None => None,
    }
}

/// What a document leaves to be written into the blob file.
pub open spec fn doc_works(key: Seq<char>, d: Doc, threshold: nat, end: Option<u64>) -> Seq<Work> {
    match end {
        Some(e) => {
            let p = pieces(d.fields, threshold, e as nat);
            let skeleton = doc_bytes(skeleton_doc(d, threshold, end));
            Seq::new(
                p.len(),
                |i: int|
                    (Work {
                        key,
                        offset: p[i].0,
                        data: p[i].1,
                        skeleton,
                        time: d.time,
                        len: p[i].1.len() as u32,
                    }),
            )
        },
        None => Seq::empty(),
    }
}

/// The end of the blob file stays within bounds, and never goes back.
pub proof fn end_bounds(fields: Seq<(Seq<char>, Val)>, threshold: nat, end: nat)
    requires
        end <= u64::MAX,
    ensures
        end <= end_after(fields, threshold, end) <= u64::MAX,
        linked(fields, threshold, end).len() == fields.len(),
        forall|i: int| 0 <= i < fields.len() ==> (#[trigger] linked(fields, threshold, end)[i]).0 == fields[i].0,
    decreases fields.len(),
{
    if fields.len() > 0 {
        end_bounds(fields.drop_last(), threshold, end);
        let l = linked(fields.drop_last(), threshold, end);
        assert forall|i: int| 0 <= i < fields.len() implies (#[trigger] linked(fields, threshold, end)[i]).0
            == fields[i].0 by {
            if i < fields.len() - 1 {
                assert(l[i].0 == fields.drop_last()[i].0);
            }
        }
    }
}

/// The bytes of a value that can be kept aside.
fn raw_value(v: &Value) -> (r: Option<Vec<u8>>)
    ensures
        match (r, raw_bytes(v@)) {
            (Some(b), Some(m)) => b@ == m,
            (None, None) => true,
            _ => false,
        },
{
    proof {
        parts_view(*v);
    }
    match v {
        Value::String(s) => Some(copy_bytes(s.as_str().as_bytes())),
        Value::Binary(b) => Some(copy_bytes(b.as_slice())),
        _ => None,
    }
}

/// Puts links in place of the values of a document above the threshold. `end` is the end
/// of the blob file, which moves past them. Hands back what is to be written there.
pub fn extract_blobs(key: &str, doc: &mut FireLiteDoc, threshold: usize, end: &mut u64) -> (r: Vec<BlobWork>)
    ensures
        final(doc)@ == skeleton_doc(old(doc)@, threshold as nat, Some(*old(end))),
        Some(*final(end)) == doc_end(old(doc)@, threshold as nat, Some(*old(end))),
        works_view(r@) == doc_works(key@, old(doc)@, threshold as nat, Some(*old(end))),
{
    let ghost d = doc@;
    let ghost e = *end as nat;
    let ghost t = threshold as nat;
    let mut parts: Vec<(u64, Vec<u8>)> = Vec::new();
    let mut i: usize = 0;
    while i < doc.fields.len()
        invariant
            t == threshold as nat,
            e <= u64::MAX,
            doc._time == d.time,
            doc.fields@.len() == d.fields.len(),
            i <= d.fields.len(),
            *end == end_after(d.fields.take(i as int), t, e),
            fields_view(doc.fields@) == linked(d.fields.take(i as int), t, e) + d.fields.skip(i as int),
            parts@.len() == pieces(d.fields.take(i as int), t, e).len(),
            forall|k: int|
                0 <= k < parts@.len() ==> (#[trigger] parts@[k]).0 == pieces(d.fields.take(i as int), t, e)[k].0
                    && parts@[k].1@ == pieces(d.fields.take(i as int), t, e)[k].1,
        decreases d.fields.len() - i,
    {
        let ghost pre = d.fields.take(i as int);
        let ghost next = d.fields.take(i + 1);
        let ghost all = fields_view(doc.fields@);
        proof {
            end_bounds(pre, t, e);
            assert(next.drop_last() =~= pre);
            assert(next.last() == d.fields[i as int]);
            assert(all[i as int] == d.fields[i as int]);
            assert(all[i as int].1 == doc.fields@[i as int].1@);
        }
        let ghost old_parts = parts@;
        if let Some(data) = raw_value(&doc.fields[i].1) {
            if data.len() > threshold && data.len() as u64 <= 0xFFFF_FFFF && data.len() as u64 <= u64::MAX - *end {
                let offset: u64 = *end;
                let len: u32 = data.len() as u32;
                let mut entry = Value::BlobLink { offset, len };
                *end = offset + data.len() as u64;
                std::mem::swap(&mut doc.fields[i].1, &mut entry);
                parts.push((offset, data));
            }
        }
        proof {
            let now = fields_view(doc.fields@);
            assert(now =~= linked(next, t, e) + d.fields.skip(i + 1)) by {
                assert(linked(next, t, e).drop_last() =~= linked(pre, t, e));
                assert forall|k: int| 0 <= k < now.len() implies now[k] == (linked(next, t, e) + d.fields.skip(i + 1))[k] by {
                    if k != i {
                        assert(now[k] == all[k]);
                    }
                }
            }
        }
        i = i + 1;
    }
    proof {
        assert(d.fields.take(i as int) =~= d.fields);
        assert(fields_view(doc.fields@) =~= linked(d.fields, t, e));
        end_bounds(d.fields, t, e);
    }
    let skeleton: Vec<u8> = doc.encode();
    let time: i64 = doc._time;
    let mut r: Vec<BlobWork> = Vec::new();
    let ghost want = doc_works(key@, d, t, Some(e as u64));
    let ghost p = pieces(d.fields, t, e);
    let mut k: usize = 0;
    while k < parts.len()
        invariant
            k <= parts@.len(),
            parts@.len() == p.len(),
            forall|j: int| 0 <= j < parts@.len() ==> (#[trigger] parts@[j]).0 == p[j].0 && parts@[j].1@ == p[j].1,
            p == pieces(d.fields, t, e),
            e <= u64::MAX,
            want == doc_works(key@, d, t, Some(e as u64)),
            skeleton@ == doc_bytes(skeleton_doc(d, t, Some(e as u64))),
            time == d.time,
            r@.len() == k,
            forall|j: int| 0 <= j < k ==> (#[trigger] r@[j])@ == want[j],
        decreases parts@.len() - k,
    {
        let w = BlobWork {
            key: key.to_owned(),
            offset: parts[k].0,
            data: copy_bytes(parts[k].1.as_slice()),
            skeleton: copy_bytes(skeleton.as_slice()),
            timestamp: time,
            len: parts[k].1.len() as u32,
        };
        r.push(w);
        k = k + 1;
    }
    proof {
        assert(works_view(r@) =~= want);
    }
    r
}

/// The value that bytes kept aside stand for: a text where they are valid UTF-8.
pub open spec fn inflated(data: Seq<u8>) -> Val {
    if valid_utf8(data) {
        Val::String(decode_utf8(data))
    } else {
        Val::Binary(data)
    }
}

/// The value that bytes kept aside stand for.
pub fn inflate_bytes(data: Vec<u8>) -> (v: Value)
    ensures
        v@ == inflated(data@),
{
    let r = match text_of_utf8(data.as_slice()) {
        Some(s) => Value::String(s),
        None => Value::Binary(data),
    };
    proof {
        parts_view(r);
    }
    r
}

/// Whether a value links to the blob file.
pub open spec fn is_link(v: Val) -> bool {
    v matches Val::BlobLink { offset, .. } && offset != u64::MAX
}

/// Whether a value is a link of any kind.
pub open spec fn has_links(d: Doc) -> bool {
    exists|i: int| 0 <= i < d.fields.len() && (#[trigger] d.fields[i]).1 is BlobLink
}

/// What waits to be written at a place of the blob file: the latest.
pub open spec fn queued(queue: Seq<Work>, offset: u64) -> Option<Seq<u8>>
    decreases queue.len(),
{
    if queue.len() == 0 {
        None
    } else if queue.last().offset == offset {
        Some(queue.last().data)
    } else {
        queued(queue.drop_last(), offset)
    }
}

/// The bytes at a place of the blob file: those that wait, or else those that were read.
pub open spec fn blob_at(queue: Seq<Work>, reads: Map<u64, Vec<u8>>, offset: u64) -> Option<Seq<u8>> {
    match queued(queue, offset) {
        Some(b) => Some(b),
        None => if reads.contains_key(offset) {
            Some(reads[offset]@)
        } else {
            None
        },
    }
}

/// A value with what it links to in its place; nothing where that could not be read.
pub open spec fn filled(v: Val, queue: Seq<Work>, reads: Map<u64, Vec<u8>>) -> Option<Val> {
    if is_link(v) {
        match blob_at(queue, reads, v->BlobLink_offset) {
            Some(b) => Some(inflated(b)),
            None => None,
        }
    } else {
        Some(v)
    }
}

/// Whether everything that a document links to can be read.
pub open spec fn fillable(d: Doc, queue: Seq<Work>, reads: Map<u64, Vec<u8>>) -> bool {
    forall|i: int| 0 <= i < d.fields.len() ==> filled((#[trigger] d.fields[i]).1, queue, reads) is Some
}

/// A document with what it links to in place of the links.
pub open spec fn filled_doc(d: Doc, queue: Seq<Work>, reads: Map<u64, Vec<u8>>) -> Doc {
    Doc {
        fields: Seq::new(
            d.fields.len(),
            |i: int| (d.fields[i].0, filled(d.fields[i].1, queue, reads)->Some_0),
        ),
        time: d.time,
    }
}

/// The document with what it links to, where there is a blob file and everything in it
/// could be read.
pub open spec fn resolved_doc(
    d: Doc,
    has_file: bool,
    queue: Seq<Work>,
    reads: Map<u64, Vec<u8>>,
) -> Option<Doc> {
    if forall|i: int| 0 <= i < d.fields.len() ==> !is_link((#[trigger] d.fields[i]).1) {
        Some(d)
    } else if !has_file || !fillable(d, queue, reads) {
        None
    } else {
        Some(filled_doc(d, queue, reads))
    }
}

/// How many fields at the front hold no link that could not be read.
pub open spec fn stop_at(fields: Seq<(Seq<char>, Val)>, queue: Seq<Work>, reads: Map<u64, Vec<u8>>) -> nat
    decreases fields.len(),
{
    if fields.len() == 0 {
        0
    } else {
        let n = stop_at(fields.drop_last(), queue, reads);
        if n == fields.len() - 1 && filled(fields.last().1, queue, reads) is Some {
            fields.len()
        } else {
            n
        }
    }
}

/// The document after an attempt to put what it links to in place of the links: those up
/// to the first that could not be read are replaced.
pub open spec fn attempted_doc(
    d: Doc,
    has_file: bool,
    queue: Seq<Work>,
    reads: Map<u64, Vec<u8>>,
) -> Doc {
    if !has_file {
        d
    } else {
        let n = stop_at(d.fields, queue, reads);
        Doc {
            fields: Seq::new(
                d.fields.len(),
                |i: int|
                    if i < n {
                        (d.fields[i].0, filled(d.fields[i].1, queue, reads)->Some_0)
                    } else {
                        d.fields[i]
                    },
            ),
            time: d.time,
        }
    }
}

/// Where the fields at the front that can be read end.
proof fn stop_is(fields: Seq<(Seq<char>, Val)>, queue: Seq<Work>, reads: Map<u64, Vec<u8>>, n: int)
    requires
        0 <= n <= fields.len(),
        forall|i: int| 0 <= i < n ==> filled((#[trigger] fields[i]).1, queue, reads) is Some,
        n < fields.len() ==> filled(fields[n].1, queue, reads) is None,
    ensures
        stop_at(fields, queue, reads) == n,
    decreases fields.len(),
{
    if fields.len() > 0 {
        let pre = fields.drop_last();
        assert forall|i: int| 0 <= i < n && i < pre.len() implies filled((#[trigger] pre[i]).1, queue, reads) is Some by {
            assert(pre[i] == fields[i]);
        }
        if n == fields.len() {
            stop_is(pre, queue, reads, n - 1);
            assert(filled(fields[n - 1].1, queue, reads) is Some);
        } else if n == fields.len() - 1 {
            stop_is(pre, queue, reads, n);
        } else {
            assert(pre[n] == fields[n]);
            stop_is(pre, queue, reads, n);
        }
    }
}

/// Looks for the bytes that wait to be written at a place.
fn find_queued(queue: &Vec<BlobWork>, offset: u64) -> (r: Option<usize>)
    ensures
        match r {
            Some(i) => i < queue@.len() && queued(works_view(queue@), offset) == Some(queue@[i as int].data@),
            None => queued(works_view(queue@), offset) is None,
        },
{
    let ghost q = works_view(queue@);
    let mut n: usize = queue.len();
    proof {
        assert(q.take(n as int) =~= q);
    }
    while n > 0
        invariant
            n <= queue@.len(),
            q == works_view(queue@),
            queued(q, offset) == queued(q.take(n as int), offset),
        decreases n,
    {
        proof {
            assert(q.take(n as int).drop_last() =~= q.take(n - 1));
            assert(q.take(n as int).last() == queue@[n - 1]@);
        }
        if queue[n - 1].offset == offset {
            return Some(n - 1);
        }
        n = n - 1;
    }
    None
}

/// Whether a document holds a link of any kind.
pub fn doc_has_links(doc: &FireLiteDoc) -> (r: bool)
    ensures
        r == has_links(doc@),
{
    let mut i: usize = 0;
    while i < doc.fields.len()
        invariant
            i <= doc.fields@.len(),
            forall|k: int| 0 <= k < i ==> !((#[trigger] doc@.fields[k]).1 is BlobLink),
        decreases doc.fields@.len() - i,
    {
        proof {
            parts_view(doc.fields@[i as int].1);
            assert(doc@.fields[i as int].1 == doc.fields@[i as int].1@);
        }
        if let Value::BlobLink { .. } = &doc.fields[i].1 {
            return true;
        }
        i = i + 1;
    }
    false
}

/// The error where something that a document links to cannot be had.
pub open spec fn unresolved(e: HakoError, has_file: bool) -> bool {
    if has_file {
        e is Io && error_message(e) == "blob cannot be read"@
    } else {
        e is StorageError && error_message(e) == "No blob manager"@
    }
}

/// Puts what a document links to in place of the links. `reads` is what the blob file
/// holds at the places that it was read at. Where something could not be read the error
/// says so, and the links before it are replaced.
pub fn resolve_doc(
    doc: &mut FireLiteDoc,
    has_file: bool,
    queue: &Vec<BlobWork>,
    reads: &SortedMap<u64, Vec<u8>>,
) -> (r: Result<(), HakoError>)
    requires
        reads.wf(),
    ensures
        match (r, resolved_doc(old(doc)@, has_file, works_view(queue@), reads@)) {
            (Ok(_), Some(d)) => final(doc)@ == d,
            (Err(e), None) => unresolved(e, has_file),
            _ => false,
        },
        final(doc)@ == attempted_doc(old(doc)@, has_file, works_view(queue@), reads@),
{
    let ghost d = doc@;
    let ghost q = works_view(queue@);
    let mut any: bool = false;
    let mut j: usize = 0;
    while j < doc.fields.len()
        invariant
            d == doc@,
            j <= doc.fields@.len(),
            !any ==> forall|k: int| 0 <= k < j ==> !is_link((#[trigger] d.fields[k]).1),
            any ==> exists|k: int| 0 <= k < d.fields.len() && is_link((#[trigger] d.fields[k]).1),
        decreases doc.fields@.len() - j,
    {
        proof {
            parts_view(doc.fields@[j as int].1);
            assert(d.fields[j as int].1 == doc.fields@[j as int].1@);
        }
        if let Value::BlobLink { offset, .. } = &doc.fields[j].1 {
            if *offset != u64::MAX {
                any = true;
            }
        }
        j = j + 1;
    }
    if !any {
        proof {
            assert forall|k: int| 0 <= k < d.fields.len() implies filled((#[trigger] d.fields[k]).1, q, reads@) == Some(
                d.fields[k].1,
            ) by {
                assert(!is_link(d.fields[k].1));
            }
            stop_is(d.fields, q, reads@, d.fields.len() as int);
            assert(attempted_doc(d, true, q, reads@).fields =~= d.fields);
        }
        return Ok(());
    }
    if !has_file {
        return Err(HakoError::StorageError("No blob manager".to_owned()));
    }
    let mut i: usize = 0;
    while i < doc.fields.len()
        invariant
            reads.wf(),
            q == works_view(queue@),
            has_file,
            exists|k: int| 0 <= k < d.fields.len() && is_link((#[trigger] d.fields[k]).1),
            d == old(doc)@,
            doc._time == d.time,
            doc.fields@.len() == d.fields.len(),
            i <= d.fields.len(),
            forall|k: int| 0 <= k < i ==> filled((#[trigger] d.fields[k]).1, q, reads@) is Some,
            forall|k: int| 0 <= k < i ==> (#[trigger] doc.fields@[k]).1@ == filled(d.fields[k].1, q, reads@)->Some_0,
            forall|k: int| i <= k < d.fields.len() ==> (#[trigger] doc.fields@[k]).1@ == d.fields[k].1,
            forall|k: int| 0 <= k < d.fields.len() ==> (#[trigger] doc.fields@[k]).0@ == d.fields[k].0,
        decreases d.fields.len() - i,
    {
        proof {
            parts_view(doc.fields@[i as int].1);
            assert(doc.fields@[i as int].1@ == d.fields[i as int].1);
        }
        let mut link: Option<u64> = None;
        if let Value::BlobLink { offset, .. } = &doc.fields[i].1 {
            if *offset != u64::MAX {
                link = Some(*offset);
            }
        }
        if let Some(offset) = link {
            let data: Vec<u8> = match find_queued(queue, offset) {
                Some(k) => copy_bytes(queue[k].data.as_slice()),
                None => match reads.get(&offset) {
                    Some(b) => copy_bytes(b.as_slice()),
                    None => {
                        proof {
                            assert(filled(d.fields[i as int].1, q, reads@) is None);
                            stop_is(d.fields, q, reads@, i as int);
                            assert(doc@.fields =~= attempted_doc(d, true, q, reads@).fields);
                        }
                        return Err(HakoError::Io("blob cannot be read".to_owned()));
                    },
                },
            };
            let mut v = inflate_bytes(data);
            std::mem::swap(&mut doc.fields[i].1, &mut v);
        }
        i = i + 1;
    }
    proof {
        assert(doc@.fields =~= filled_doc(d, q, reads@).fields);
        stop_is(d.fields, q, reads@, d.fields.len() as int);
        assert(doc@.fields =~= attempted_doc(d, true, q, reads@).fields);
    }
    Ok(())
}

/// Whether a value comes back as it was once it has been kept aside: bytes that happen to
/// be valid UTF-8 come back as a text.
pub open spec fn comes_back(v: Val) -> bool {
    v matches Val::Binary(b) ==> !valid_utf8(b)
}

/// The places of the large values of some fields ascend.
pub proof fn pieces_ascend(fields: Seq<(Seq<char>, Val)>, threshold: nat, end: nat)
    requires
        end <= u64::MAX,
    ensures
        forall|i: int, j: int| #![trigger pieces(fields, threshold, end)[i], pieces(fields, threshold, end)[j]]
            0 <= i < j < pieces(fields, threshold, end).len() ==> pieces(fields, threshold, end)[i].0 < pieces(
                fields,
                threshold,
                end,
            )[j].0,
        forall|i: int|
            0 <= i < pieces(fields, threshold, end).len() ==> end <= (#[trigger] pieces(fields, threshold, end)[i]).0
                < end_after(fields, threshold, end),
    decreases fields.len(),
{
    if fields.len() > 0 {
        let pre = fields.drop_last();
        pieces_ascend(pre, threshold, end);
        end_bounds(pre, threshold, end);
        let p = pieces(fields, threshold, end);
        let q = pieces(pre, threshold, end);
        assert forall|i: int| 0 <= i < p.len() implies end <= (#[trigger] p[i]).0 < end_after(fields, threshold, end) by {
            if i < q.len() {
                assert(p[i] == q[i]);
            }
        }
        assert forall|i: int, j: int| #![trigger p[i], p[j]] 0 <= i < j < p.len() implies p[i].0 < p[j].0 by {
            assert(p[i] == q[i]);
            if j < q.len() {
                assert(p[j] == q[j]);
            }
        }
    }
}

/// What became of one field: its value stayed, or it is linked to and was cut out.
proof fn field_linked(fields: Seq<(Seq<char>, Val)>, threshold: nat, end: nat, i: int)
    requires
        end <= u64::MAX,
        0 <= i < fields.len(),
    ensures
        ({
            let l = linked(fields, threshold, end)[i].1;
            let p = pieces(fields, threshold, end);
            ||| l == fields[i].1
            ||| exists|j: int|
                0 <= j < p.len() && raw_bytes(fields[i].1) == Some((#[trigger] p[j]).1) && l == (Val::BlobLink {
                    offset: p[j].0,
                    len: p[j].1.len() as u32,
                })
        }),
    decreases fields.len(),
{
    let pre = fields.drop_last();
    end_bounds(pre, threshold, end);
    let p = pieces(fields, threshold, end);
    let q = pieces(pre, threshold, end);
    assert(forall|j: int| 0 <= j < q.len() ==> p[j] == #[trigger] q[j]);
    if i < fields.len() - 1 {
        field_linked(pre, threshold, end, i);
        if linked(pre, threshold, end)[i].1 != pre[i].1 {
            let j = choose|j: int|
                0 <= j < q.len() && raw_bytes(pre[i].1) == Some((#[trigger] q[j]).1) && linked(pre, threshold, end)[i].1
                    == (Val::BlobLink { offset: q[j].0, len: q[j].1.len() as u32 });
            assert(p[j] == q[j]);
        }
    } else {
        let at = end_after(pre, threshold, end);
        if moves(fields.last().1, threshold, at) {
            assert(p[q.len() as int] == (at as u64, raw_bytes(fields.last().1)->Some_0));
        }
    }
}

/// What waits at a place is found, where nothing after it waits at the same place.
proof fn queued_found(q: Seq<Work>, w: Seq<Work>, i: int)
    requires
        0 <= i < w.len(),
        forall|j: int| i < j < w.len() ==> (#[trigger] w[j]).offset != w[i].offset,
    ensures
        queued(q + w, w[i].offset) == Some(w[i].data),
    decreases w.len(),
{
    assert((q + w).drop_last() =~= q + w.drop_last());
    assert((q + w).last() == w.last());
    if i < w.len() - 1 {
        assert(w[w.len() - 1].offset != w[i].offset);
        assert(w.drop_last()[i] == w[i]);
        assert forall|j: int| i < j < w.drop_last().len() implies (#[trigger] w.drop_last()[j]).offset
            != w.drop_last()[i].offset by {
            assert(w.drop_last()[j] == w[j]);
        }
        queued_found(q, w.drop_last(), i);
    }
}

/// A document whose large values were cut out comes back whole while they wait to be
/// written, whatever else waits and whatever the blob file holds.
pub proof fn extraction_is_undone(
    key: Seq<char>,
    d: Doc,
    threshold: nat,
    end: u64,
    queue: Seq<Work>,
    reads: Map<u64, Vec<u8>>,
)
    requires
        forall|i: int| 0 <= i < d.fields.len() ==> !is_link((#[trigger] d.fields[i]).1) && comes_back(d.fields[i].1),
    ensures
        resolved_doc(
            skeleton_doc(d, threshold, Some(end)),
            true,
            queue + doc_works(key, d, threshold, Some(end)),
            reads,
        ) == Some(d),
{
    let w = doc_works(key, d, threshold, Some(end));
    extraction_is_undone_later(key, d, threshold, end, queue, Seq::empty(), reads);
    assert(queue + w + Seq::<Work>::empty() =~= queue + w);
}

/// A document whose large values were cut out comes back whole also where values of later
/// documents wait behind its own.
pub proof fn extraction_is_undone_later(
    key: Seq<char>,
    d: Doc,
    threshold: nat,
    end: u64,
    queue: Seq<Work>,
    later: Seq<Work>,
    reads: Map<u64, Vec<u8>>,
)
    requires
        forall|i: int| 0 <= i < d.fields.len() ==> !is_link((#[trigger] d.fields[i]).1) && comes_back(d.fields[i].1),
        forall|i: int| 0 <= i < later.len() ==> (#[trigger] later[i]).offset >= end_after(d.fields, threshold, end as nat),
    ensures
        resolved_doc(
            skeleton_doc(d, threshold, Some(end)),
            true,
            queue + doc_works(key, d, threshold, Some(end)) + later,
            reads,
        ) == Some(d),
{
    let e = end as nat;
    let s = skeleton_doc(d, threshold, Some(end));
    let w = doc_works(key, d, threshold, Some(end));
    let p = pieces(d.fields, threshold, e);
    let behind = w + later;
    let all = queue + w + later;
    assert(all =~= queue + behind);
    end_bounds(d.fields, threshold, e);
    pieces_ascend(d.fields, threshold, e);
    assert forall|i: int| 0 <= i < d.fields.len() implies filled((#[trigger] s.fields[i]).1, all, reads) == Some(
        d.fields[i].1,
    ) by {
        field_linked(d.fields, threshold, e, i);
        assert(!is_link(d.fields[i].1));
        if s.fields[i].1 != d.fields[i].1 {
            let j = choose|j: int|
                0 <= j < p.len() && raw_bytes(d.fields[i].1) == Some((#[trigger] p[j]).1) && s.fields[i].1 == (
                Val::BlobLink { offset: p[j].0, len: p[j].1.len() as u32 });
            assert(behind[j] == w[j]);
            assert forall|k: int| j < k < behind.len() implies (#[trigger] behind[k]).offset != behind[j].offset by {
                if k < w.len() {
                    assert(behind[k] == w[k]);
                    assert(p[j].0 < p[k].0);
                } else {
                    assert(behind[k] == later[k - w.len()]);
                    assert(p[j].0 < end_after(d.fields, threshold, e));
                }
            }
            queued_found(queue, behind, j);
            assert(w[j].offset == p[j].0);
            assert(comes_back(d.fields[i].1));
            assert(p[j].0 < end_after(d.fields, threshold, e));
            match d.fields[i].1 {
                Val::String(t) => {
                    vstd::utf8::encode_utf8_decode_utf8(t);
                    vstd::utf8::encode_utf8_valid_utf8(t);
                },
                _ => {},
            }
        }
    }
    assert forall|i: int| 0 <= i < s.fields.len() implies filled((#[trigger] s.fields[i]).1, all, reads) is Some by {}
    assert(filled_doc(s, all, reads).fields =~= d.fields);
    if forall|i: int| 0 <= i < s.fields.len() ==> !is_link((#[trigger] s.fields[i]).1) {
        assert forall|i: int| 0 <= i < s.fields.len() implies s.fields[i] == d.fields[i] by {
            assert(filled(s.fields[i].1, all, reads) == Some(d.fields[i].1));
        }
        assert(s.fields =~= d.fields);
    }
}

/// Links in place of values fit where the values did.
pub proof fn skeleton_fits(d: Doc, threshold: nat, end: Option<u64>)
    requires
        d.fits(),
    ensures
        skeleton_doc(d, threshold, end).fits(),
{
    if let Some(e) = end {
        let s = skeleton_doc(d, threshold, end);
        end_bounds(d.fields, threshold, e as nat);
        assert forall|i: int| 0 <= i < s.fields.len() implies field_fits(#[trigger] s.fields[i]) by {
            assert(field_fits(d.fields[i]));
            assert(s.fields[i].0 == d.fields[i].0);
            field_linked(d.fields, threshold, e as nat, i);
        }
    }
}

/// A document with links is read from its bytes as the document that it was made of was.
pub proof fn skeleton_is_read(bytes: Seq<u8>, d: Doc, threshold: nat, end: Option<u64>)
    requires
        decode_doc(bytes) == Some(d),
    ensures
        decode_doc(doc_bytes(skeleton_doc(d, threshold, end))) == Some(skeleton_doc(d, threshold, end)),
{
    what_was_read_is_read_again(bytes, d);
    skeleton_fits(d, threshold, end);
    document_round_trip(skeleton_doc(d, threshold, end));
}

/// A value that is not above the threshold stays where it is.
pub proof fn small_value_stays(fields: Seq<(Seq<char>, Val)>, threshold: nat, end: nat, i: int)
    requires
        0 <= i < fields.len(),
        raw_bytes(fields[i].1) matches Some(b) ==> b.len() <= threshold,
    ensures
        linked(fields, threshold, end).len() == fields.len(),
        linked(fields, threshold, end)[i] == fields[i],
    decreases fields.len(),
{
    linked_keys(fields, threshold, end);
    if i < fields.len() - 1 {
        assert(fields.drop_last()[i] == fields[i]);
        small_value_stays(fields.drop_last(), threshold, end, i);
    }
}

/// Links stand under the keys of the values that they stand for.
pub proof fn linked_keys(fields: Seq<(Seq<char>, Val)>, threshold: nat, end: nat)
    ensures
        linked(fields, threshold, end).len() == fields.len(),
        forall|i: int| 0 <= i < fields.len() ==> (#[trigger] linked(fields, threshold, end)[i]).0 == fields[i].0,
    decreases fields.len(),
{
    if fields.len() > 0 {
        let pre = fields.drop_last();
        linked_keys(pre, threshold, end);
        assert forall|i: int| 0 <= i < fields.len() implies (#[trigger] linked(fields, threshold, end)[i]).0
            == fields[i].0 by {
            if i < pre.len() {
                assert(linked(fields, threshold, end)[i] == linked(pre, threshold, end)[i]);
            }
        }
    }
}

/// A small value of a document in key order is found in it as before once the large ones
/// were kept aside.
pub proof fn small_value_is_found(d: Doc, threshold: nat, end: Option<u64>, key: Seq<char>)
    requires
        d.wf(),
        d.map().contains_key(key),
        raw_bytes(d.map()[key]) matches Some(b) ==> b.len() <= threshold,
    ensures
        skeleton_doc(d, threshold, end).map().contains_key(key),
        skeleton_doc(d, threshold, end).map()[key] == d.map()[key],
{
    if let Some(e) = end {
        let s = skeleton_doc(d, threshold, end);
        let f = d.fields;
        map_in_order(d);
        let i = choose|i: int| 0 <= i < f.len() && #[trigger] f[i].0 == key;
        ascending_entry::<String, Val>(f, i);
        linked_keys(f, threshold, e as nat);
        small_value_stays(f, threshold, e as nat, i);
        assert(s.wf()) by {
            let g = s.fields;
            assert forall|a: int, b: int| #![trigger g[a], g[b]] 0 <= a < b < g.len() implies key_lt::<String>(
                g[a].0,
                g[b].0,
            ) by {
                assert(key_lt::<String>(f[a].0, f[b].0));
            }
        }
        map_in_order(s);
        ascending_entry::<String, Val>(s.fields, i);
    }
}

/// A search for a key finds in a document with what it links to in place of the links what it
/// found before, or what the link stood for.
pub proof fn filled_is_found(d: Doc, has_file: bool, queue: Seq<Work>, reads: Map<u64, Vec<u8>>, key: Seq<char>)
    requires
        resolved_doc(d, has_file, queue, reads) is Some,
    ensures
        ({
            let f = resolved_doc(d, has_file, queue, reads)->Some_0;
            &&& f.map().contains_key(key) == d.map().contains_key(key)
            &&& d.map().contains_key(key) && !is_link(d.map()[key]) ==> f.map()[key] == d.map()[key]
        }),
{
    let f = resolved_doc(d, has_file, queue, reads)->Some_0;
    sought_by_keys(d.fields, f.fields, key);
}

} // verus!
