//! How the indexes are brought back from their log.
use vstd::prelude::*;
use vstd::utf8::{decode_utf8, valid_utf8};

use crate::index::composite::composite_index::CompositeIndex;
use crate::index::composite::manager::CompositeIndexManager;
use crate::index::storage::index_log::{
    counted_at, parse_record, record_bytes, record_reads_back, Entry, DELETE, INSERT,
};
use crate::util::fixed::{pow256_values, read_be};

verus! {

/// The text of bytes, with a replacement character for each sequence that is not UTF-8.
pub uninterp spec fn lossy_text(bytes: Seq<u8>) -> Seq<char>;

/// `std::string::String::from_utf8_lossy`: the text of bytes, with replacement characters
/// for what is not UTF-8; where all of it is, the text that it encodes.
#[verifier::external_body]
fn text_of_lossy_utf8(bytes: &[u8]) -> (s: String)
    ensures
        s@ == lossy_text(bytes@),
        valid_utf8(bytes@) ==> s@ == decode_utf8(bytes@),
{
    String::from_utf8_lossy(bytes).into_owned()
}

/// The complete records at the start of a log.
pub open spec fn log_entries(s: Seq<u8>) -> Seq<Entry>
    decreases s.len(),
{
    match parse_record(s) {
        Some((e, n)) => if 0 < n <= s.len() {
            seq![e] + log_entries(s.skip(n as int))
        } else {
            Seq::empty()
        },
        None => Seq::empty(),
    }
}

/// The length of the complete records at the start of a log.
pub open spec fn valid_len(s: Seq<u8>) -> nat
    decreases s.len(),
{
    match parse_record(s) {
        Some((e, n)) => if 0 < n <= s.len() {
            n + valid_len(s.skip(n as int))
        } else {
            0
        },
        None => 0,
    }
}

/// What an index holds after the records of a log: each record with its number puts an
/// entry in or takes one out.
pub open spec fn replay(entries: Map<Seq<u8>, Seq<char>>, id: u32, log: Seq<Entry>) -> Map<Seq<u8>, Seq<char>>
    decreases log.len(),
{
    if log.len() == 0 {
        entries
    } else {
        let before = replay(entries, id, log.drop_last());
        let e = log.last();
        if e.index_id != id {
            before
        } else if e.op == INSERT {
            before.insert(e.key, lossy_text(e.doc))
        } else if e.op == DELETE {
            before.remove(e.key)
        } else {
            before
        }
    }
}

/// `b` are the indexes `a` after the records of a log.
pub open spec fn replayed(a: Seq<CompositeIndex>, b: Seq<CompositeIndex>, log: Seq<Entry>) -> bool {
    &&& a.len() == b.len()
    &&& forall|i: int|
        0 <= i < a.len() ==> (#[trigger] b[i]).definition == a[i].definition && b[i].entries() == replay(
            a[i].entries(),
            a[i].definition.id,
            log,
        )
}

proof fn record_bounds(s: Seq<u8>)
    ensures
        parse_record(s) matches Some((e, n)) ==> 9 <= n <= s.len(),
{
}

/// Brings the indexes up to the records of a log. Hands back the length of the complete
/// records: what follows was cut short and is to be dropped.
pub fn replay_log(bytes: &[u8], manager: &mut CompositeIndexManager) -> (end: usize)
    requires
        old(manager).wf(),
    ensures
        final(manager).wf(),
        final(manager).last_id() == old(manager).last_id(),
        end == valid_len(bytes@),
        end <= bytes@.len(),
        replayed(old(manager).indexes(), final(manager).indexes(), log_entries(bytes@)),
{
    let total: usize = bytes.len();
    let mut at: usize = 0;
    let ghost mut done: Seq<Entry> = Seq::empty();
    let mut more: bool = true;
    proof {
        assert(bytes@.skip(0) =~= bytes@);
        assert(done + log_entries(bytes@) =~= log_entries(bytes@));
    }
    while more
        invariant
            manager.wf(),
            manager.last_id() == old(manager).last_id(),
            at <= total == bytes@.len(),
            replayed(old(manager).indexes(), manager.indexes(), done),
            more ==> valid_len(bytes@) == at + valid_len(bytes@.skip(at as int)),
            more ==> log_entries(bytes@) == done + log_entries(bytes@.skip(at as int)),
            !more ==> valid_len(bytes@) == at && log_entries(bytes@) == done,
        decreases (if more {
            1int
        } else {
            0int
        }), total - at,
    {
        let ghost rest = bytes@.skip(at as int);
        proof {
            record_bounds(rest);
        }
        match read_record(bytes, at) {
            None => {
                proof {
                    assert(done + Seq::<Entry>::empty() =~= done);
                }
                more = false;
            },
            Some((op, index_id, key, doc, end)) => {
                let ghost e = Entry { op, index_id, key: key@, doc: doc@ };
                let ghost before = manager.indexes();
                let doc_id = text_of_lossy_utf8(doc);
                if op == INSERT {
                    manager.put_entry(index_id, key, doc_id.as_str());
                } else if op == DELETE {
                    manager.drop_entry(index_id, key);
                }
                proof {
                    let was = done;
                    done = done.push(e);
                    assert(done.drop_last() =~= was);
                    assert(rest.skip(end - at) =~= bytes@.skip(end as int));
                    assert(was + (seq![e] + log_entries(bytes@.skip(end as int))) =~= done + log_entries(
                        bytes@.skip(end as int),
                    ));
                    let a = old(manager).indexes();
                    let b = manager.indexes();
                    assert forall|i: int| 0 <= i < a.len() implies (#[trigger] b[i]).definition == a[i].definition
                        && b[i].entries() == replay(a[i].entries(), a[i].definition.id, done) by {
                        assert(before[i].definition == a[i].definition);
                        assert(before[i].entries() == replay(a[i].entries(), a[i].definition.id, was));
                    }
                }
                at = end;
            },
        }
    }
    at
}

/// The record at `at`, and where it ends; nothing where it is cut short.
fn read_record<'a>(bytes: &'a [u8], at: usize) -> (r: Option<(u8, u32, &'a [u8], &'a [u8], usize)>)
    requires
        at <= bytes@.len(),
    ensures
        match (r, parse_record(bytes@.skip(at as int))) {
            (Some((op, index_id, key, doc, end)), Some((e, n))) => {
                &&& e == (Entry { op, index_id, key: key@, doc: doc@ })
                &&& end == at + n
                &&& end <= bytes@.len()
            },
            (None, None) => true,
            _ => false,
        },
{
    let ghost s = bytes@.skip(at as int);
    let total: usize = bytes.len();
    if total - at < 5 {
        return None;
    }
    proof {
        pow256_values();
        assert(s.subrange(1, 5) =~= bytes@.subrange(at + 1, at + 5));
    }
    let op: u8 = bytes[at];
    let index_id: u32 = read_be(bytes, at + 1, 4) as u32;
    match read_counted(bytes, at, 5) {
        None => None,
        Some((key, mid)) => match read_counted(bytes, at, mid) {
            None => None,
            Some((doc, end)) => Some((op, index_id, key, doc, at + end)),
        },
    }
}

/// The counted bytes at `at + from`, and where they end behind `at`.
fn read_counted<'a>(bytes: &'a [u8], at: usize, from: usize) -> (r: Option<(&'a [u8], usize)>)
    requires
        at + from <= bytes@.len(),
    ensures
        match (r, counted_at(bytes@.skip(at as int), from as int)) {
            (Some((body, end)), Some((b, e))) => body@ == b && end == e && at + end <= bytes@.len(),
            (None, None) => true,
            _ => false,
        },
{
    let ghost s = bytes@.skip(at as int);
    let total: usize = bytes.len();
    let start: usize = at + from;
    if total - start < 2 {
        return None;
    }
    proof {
        pow256_values();
        assert(s.subrange(from as int, from + 2) =~= bytes@.subrange(start as int, start + 2));
    }
    let n: usize = read_be(bytes, start, 2) as usize;
    if total - start - 2 < n {
        return None;
    }
    proof {
        assert(s.subrange(from + 2, from + 2 + n) =~= bytes@.subrange(start + 2, start + 2 + n));
    }
    Some((vstd::slice::slice_subrange(bytes, start + 2, start + 2 + n), from + 2 + n))
}

/// A log with one more record: its records are those of the log and the new one, and its
/// valid part reaches behind it.
pub proof fn appended_record(log: Seq<u8>, op: u8, index_id: u32, key: Seq<u8>, doc: Seq<u8>)
    requires
        valid_len(log) == log.len(),
        key.len() < 0x1_0000,
        doc.len() < 0x1_0000,
    ensures
        log_entries(log + record_bytes(op, index_id, key, doc)) == log_entries(log).push(
            Entry { op, index_id, key, doc },
        ),
        valid_len(log + record_bytes(op, index_id, key, doc)) == log.len() + record_bytes(op, index_id, key, doc).len(),
    decreases log.len(),
{
    let r = record_bytes(op, index_id, key, doc);
    let e = Entry { op, index_id, key, doc };
    record_bounds(log);
    if log.len() == 0 {
        record_reads_back(op, index_id, key, doc, Seq::empty());
        assert(log + r =~= r + Seq::<u8>::empty());
        let t = r + Seq::<u8>::empty();
        record_bounds(t);
        assert(t.skip(r.len() as int) =~= Seq::<u8>::empty());
        record_bounds(Seq::<u8>::empty());
        assert(parse_record(Seq::<u8>::empty()) is None);
        reveal_with_fuel(log_entries, 2);
        reveal_with_fuel(valid_len, 2);
        assert(log_entries(t) =~= seq![e]);
        assert(log_entries(log) =~= Seq::<Entry>::empty());
        assert(log_entries(log).push(e) =~= seq![e]);
    } else {
        let (first, n) = parse_record(log)->Some_0;
        parse_extended(log, r);
        assert((log + r).skip(n as int) =~= log.skip(n as int) + r);
        appended_record(log.skip(n as int), op, index_id, key, doc);
        assert(seq![first] + log_entries(log.skip(n as int)).push(e) =~= log_entries(log).push(e));
    }
}

/// What follows a record does not change how it parses.
proof fn parse_extended(s: Seq<u8>, tail: Seq<u8>)
    requires
        parse_record(s) is Some,
    ensures
        parse_record(s + tail) == parse_record(s),
{
    let t = s + tail;
    assert(t.subrange(1, 5) =~= s.subrange(1, 5));
    assert(t.subrange(5, 7) =~= s.subrange(5, 7));
    let (key, mid) = counted_at(s, 5)->Some_0;
    assert(t.subrange(7, mid) =~= s.subrange(7, mid));
    assert(t.subrange(mid, mid + 2) =~= s.subrange(mid, mid + 2));
    let (doc, end) = counted_at(s, mid)->Some_0;
    assert(t.subrange(mid + 2, end) =~= s.subrange(mid + 2, end));
}

/// A record that was cut short at the end of a log is dropped, and nothing else.
pub proof fn torn_tail_is_dropped(log: Seq<u8>, torn: Seq<u8>)
    requires
        valid_len(log) == log.len(),
        parse_record(torn) is None,
    ensures
        log_entries(log + torn) == log_entries(log),
        valid_len(log + torn) == log.len(),
    decreases log.len(),
{
    record_bounds(log);
    if log.len() == 0 {
        assert(log + torn =~= torn);
        assert(parse_record(log) is None);
    } else {
        let (first, n) = parse_record(log)->Some_0;
        parse_extended(log, torn);
        assert((log + torn).skip(n as int) =~= log.skip(n as int) + torn);
        torn_tail_is_dropped(log.skip(n as int), torn);
    }
}

} // verus!
