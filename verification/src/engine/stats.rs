//! Where the time of writes goes.
use vstd::prelude::*;
use vstd::string::*;

use crate::util::decimal::{digits, push_digits};

verus! {

/// Nanoseconds spent in each phase of the writes, and how many writes there were.
#[derive(Debug, Clone, Copy, PartialEq, Eq, Structural)]
pub struct WritePhaseStats {
    pub batches: u64,
    pub mutations: u64,
    pub total_ns: u64,
    pub encode_ns: u64,
    pub wal_ns: u64,
    pub apply_ns: u64,
    pub index_send_ns: u64,
    pub versions_ns: u64,
    pub watchers_ns: u64,
    pub cache_ns: u64,
    pub blob_ns: u64,
    pub encdoc_ns: u64,
}

/// No writes.
pub open spec fn no_writes() -> WritePhaseStats {
    WritePhaseStats {
        batches: 0,
        mutations: 0,
        total_ns: 0,
        encode_ns: 0,
        wal_ns: 0,
        apply_ns: 0,
        index_send_ns: 0,
        versions_ns: 0,
        watchers_ns: 0,
        cache_ns: 0,
        blob_ns: 0,
        encdoc_ns: 0,
    }
}

/// A number, or 1 in place of 0.
pub open spec fn at_least_one(n: u64) -> u64 {
    if n == 0 {
        1
    } else {
        n
    }
}

/// The names of the phases in a report.
pub open spec fn phase_names() -> Seq<Seq<char>> {
    seq![
        "total  "@,
        "encode "@,
        "wal    "@,
        "apply* "@,
        "idxsend"@,
        "version"@,
        "watch  "@,
        "cache  "@,
        "blobex "@,
        "encdoc "@,
    ]
}

/// The nanoseconds of the phases in a report. The time of `apply` is without that of the
/// log, which it spans.
pub open spec fn phase_times(s: WritePhaseStats) -> Seq<u64> {
    seq![
        s.total_ns,
        s.encode_ns,
        s.wal_ns,
        if s.apply_ns < s.wal_ns {
            0
        } else {
            (s.apply_ns - s.wal_ns) as u64
        },
        s.index_send_ns,
        s.versions_ns,
        s.watchers_ns,
        s.cache_ns,
        s.blob_ns,
        s.encdoc_ns,
    ]
}

/// The nanoseconds of each phase in the order of a report.
pub fn write_phase_times(s: &WritePhaseStats) -> (r: Vec<u64>)
    ensures
        r@ == phase_times(*s),
{
    let net: u64 = if s.apply_ns < s.wal_ns {
        0
    } else {
        s.apply_ns - s.wal_ns
    };
    let mut r: Vec<u64> = Vec::new();
    r.push(s.total_ns);
    r.push(s.encode_ns);
    r.push(s.wal_ns);
    r.push(net);
    r.push(s.index_send_ns);
    r.push(s.versions_ns);
    r.push(s.watchers_ns);
    r.push(s.cache_ns);
    r.push(s.blob_ns);
    r.push(s.encdoc_ns);
    proof {
        assert(r@ =~= phase_times(*s));
    }
    r
}

/// A line of a report: a phase, and its time for a batch and for a mutation in words.
pub open spec fn phase_line(name: Seq<char>, figures: (Seq<char>, Seq<char>)) -> Seq<char> {
    "  "@ + name + " "@ + figures.0 + "us/batch "@ + figures.1 + "us/mutation\n"@
}

/// The times of a phase in words: no time is told as such, and any other as it was given.
pub open spec fn figures_of(time: u64, given: (String, String)) -> (Seq<char>, Seq<char>) {
    if time == 0 {
        ("       0.0"@, "     0.0"@)
    } else {
        (given.0@, given.1@)
    }
}

/// The first lines of a report.
pub open spec fn phase_lines(times: Seq<u64>, figures: Seq<(String, String)>, n: nat) -> Seq<char>
    decreases n,
{
    if n == 0 {
        Seq::empty()
    } else {
        phase_lines(times, figures, (n - 1) as nat) + phase_line(
            phase_names()[n - 1],
            figures_of(times[n - 1], figures[n - 1]),
        )
    }
}

/// The number of mutations in a batch in words: one where there are as many as batches, and
/// else as it was given.
pub open spec fn mean_of(s: WritePhaseStats, given: Seq<char>) -> Seq<char> {
    if at_least_one(s.batches) == at_least_one(s.mutations) {
        "1.0"@
    } else {
        given
    }
}

/// The first line of a report.
pub open spec fn report_head(s: WritePhaseStats, mean: Seq<char>) -> Seq<char> {
    "write profile: "@ + digits(at_least_one(s.batches) as nat, 10) + " batches, "@ + digits(
        at_least_one(s.mutations) as nat,
        10,
    ) + " mutations ("@ + mean + "/batch)\n"@
}

/// A report of the writes.
pub open spec fn report(s: WritePhaseStats, mean: Seq<char>, figures: Seq<(String, String)>) -> Seq<char> {
    report_head(s, mean_of(s, mean)) + phase_lines(phase_times(s), figures, phase_names().len())
}

/// A report of the writes so far, which starts the count anew. `mean` is the number of
/// mutations in a batch and `figures` the times of the phases, in words.
pub fn write_stats_report(stats: &mut WritePhaseStats, mean: &str, figures: &Vec<(String, String)>) -> (s: String)
    requires
        figures@.len() == phase_names().len(),
    ensures
        s@ == report(*old(stats), mean@, figures@),
        *final(stats) == no_writes(),
{
    let b: u64 = if stats.batches == 0 {
        1
    } else {
        stats.batches
    };
    let m: u64 = if stats.mutations == 0 {
        1
    } else {
        stats.mutations
    };
    let mut s = "write profile: ".to_owned();
    push_digits(&mut s, b, 10);
    s.append(" batches, ");
    push_digits(&mut s, m, 10);
    s.append(" mutations (");
    if b == m {
        s.append("1.0");
    } else {
        s.append(mean);
    }
    s.append("/batch)\n");
    let ghost head = s@;
    let mut names: Vec<&str> = Vec::new();
    names.push("total  ");
    names.push("encode ");
    names.push("wal    ");
    names.push("apply* ");
    names.push("idxsend");
    names.push("version");
    names.push("watch  ");
    names.push("cache  ");
    names.push("blobex ");
    names.push("encdoc ");
    let times = write_phase_times(stats);
    let mut i: usize = 0;
    proof {
        assert(head =~= report_head(*old(stats), mean_of(*old(stats), mean@)));
        assert(head + phase_lines(times@, figures@, 0) =~= head);
        assert(names@.len() == phase_names().len());
        assert forall|k: int| 0 <= k < names@.len() implies (#[trigger] names@[k])@ == phase_names()[k] by {}
    }
    while i < names.len()
        invariant
            i <= names@.len(),
            names@.len() == figures@.len(),
            figures@.len() == phase_names().len(),
            times@.len() == figures@.len(),
            forall|k: int| 0 <= k < names@.len() ==> (#[trigger] names@[k])@ == phase_names()[k],
            s@ == head + phase_lines(times@, figures@, i as nat),
        decreases names@.len() - i,
    {
        let ghost before = s@;
        s.append("  ");
        s.append(names[i]);
        s.append(" ");
        let idle: bool = times[i] == 0;
        if idle {
            s.append("       0.0");
        } else {
            s.append(figures[i].0.as_str());
        }
        s.append("us/batch ");
        if idle {
            s.append("     0.0");
        } else {
            s.append(figures[i].1.as_str());
        }
        s.append("us/mutation\n");
        proof {
            let f = figures_of(times@[i as int], figures@[i as int]);
            assert(s@ =~= before + phase_line(phase_names()[i as int], f));
            assert(s@ =~= head + phase_lines(times@, figures@, (i + 1) as nat));
        }
        i = i + 1;
    }
    stats.batches = 0;
    stats.mutations = 0;
    stats.total_ns = 0;
    stats.encode_ns = 0;
    stats.wal_ns = 0;
    stats.apply_ns = 0;
    stats.index_send_ns = 0;
    stats.versions_ns = 0;
    stats.watchers_ns = 0;
    stats.cache_ns = 0;
    stats.blob_ns = 0;
    stats.encdoc_ns = 0;
    s
}

/// The line of a phase that took no time.
pub open spec fn idle_line(name: Seq<char>) -> Seq<char> {
    "  "@ + name + "        0.0us/batch      0.0us/mutation\n"@
}

/// The first lines of a report in which no phase took time.
pub open spec fn idle_lines(n: nat) -> Seq<char>
    decreases n,
{
    if n == 0 {
        Seq::empty()
    } else {
        idle_lines((n - 1) as nat) + idle_line(phase_names()[n - 1])
    }
}

/// A report that follows another without a write between tells of one batch with one
/// mutation, and of no time in any phase, whatever words are given.
pub proof fn report_after_report(mean: Seq<char>, figures: Seq<(String, String)>)
    ensures
        report(no_writes(), mean, figures) == "write profile: 1 batches, 1 mutations (1.0/batch)\n"@ + idle_lines(10),
        phase_names().len() == 10,
{
    reveal_strlit("write profile: ");
    reveal_strlit(" batches, ");
    reveal_strlit(" mutations (");
    reveal_strlit("1.0");
    reveal_strlit("/batch)\n");
    reveal_strlit("write profile: 1 batches, 1 mutations (1.0/batch)\n");
    assert(digits(1, 10) =~= seq!['1']);
    assert(report_head(no_writes(), "1.0"@) =~= "write profile: 1 batches, 1 mutations (1.0/batch)\n"@);
    idle_lines_are(figures, 10);
}

/// The lines of phases that took no time.
proof fn idle_lines_are(figures: Seq<(String, String)>, n: nat)
    requires
        n <= 10,
    ensures
        phase_lines(phase_times(no_writes()), figures, n) == idle_lines(n),
    decreases n,
{
    if n > 0 {
        idle_lines_are(figures, (n - 1) as nat);
        reveal_strlit(" ");
        reveal_strlit("       0.0");
        reveal_strlit("us/batch ");
        reveal_strlit("     0.0");
        reveal_strlit("us/mutation\n");
        reveal_strlit("        0.0us/batch      0.0us/mutation\n");
        let name = phase_names()[n - 1];
        assert(phase_times(no_writes())[n - 1] == 0);
        assert(phase_line(name, ("       0.0"@, "     0.0"@)) =~= idle_line(name));
    }
}

} // verus!
