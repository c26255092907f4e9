//! What a picture of a test run shows: which charts, in which order, and how
//! each latency probe appears in them. Nothing here draws.

use crate::result::RawPing;
use vstd::prelude::*;

verus! {

/// One chart of the picture.
#[derive(Clone, Copy, Debug, PartialEq, Eq, Structural)]
pub enum Chart {
    /// The download throughput, stream by stream.
    Download,
    /// The upload throughput, stream by stream.
    Upload,
    /// The throughput of all directions in one chart.
    Throughput,
    /// The latency to the server, with its packet loss.
    Latency,
    /// The latency to the peer, with its packet loss.
    PeerLatency,
    /// The bytes transferred.
    Transferred,
}

/// What a chart list depends on: what the run holds and what was asked for.
#[derive(Clone, Copy, Debug, PartialEq, Eq, Structural)]
pub struct Shown {
    /// The greatest number of streams in one group.
    pub streams: u64,
    /// Whether a download ran alone.
    pub download: bool,
    /// Whether an upload ran alone.
    pub upload: bool,
    /// Whether both directions ran at once.
    pub both: bool,
    /// Whether the run has latency probes of a peer.
    pub peer_latency: bool,
    /// Whether each direction gets a chart of its own.
    pub split_throughput: bool,
    /// Whether the bytes transferred get a chart.
    pub transferred: bool,
}

/// One chart, or none.
pub open spec fn chart_if(shown: bool, chart: Chart) -> Seq<Chart> {
    if shown {
        seq![chart]
    } else {
        Seq::empty()
    }
}

/// The charts of a picture, from top to bottom. Throughput comes first and
/// only where the run has streams: one chart for all, or one for each
/// direction that ran. The latency is always there.
pub open spec fn chart_list(shown: Shown) -> Seq<Chart> {
    let loaded = shown.streams > 0;
    chart_if(loaded && shown.split_throughput && (shown.download || shown.both), Chart::Download)
        + chart_if(
        loaded && shown.split_throughput && (shown.upload || shown.both),
        Chart::Upload,
    ) + chart_if(loaded && !shown.split_throughput, Chart::Throughput) + seq![Chart::Latency]
        + chart_if(shown.peer_latency, Chart::PeerLatency) + chart_if(
        loaded && shown.transferred,
        Chart::Transferred,
    )
}

/// The charts of a picture, from top to bottom.
pub fn charts(shown: Shown) -> (list: Vec<Chart>)
    ensures
        list@ == chart_list(shown),
{
    let mut list: Vec<Chart> = Vec::new();
    let loaded = shown.streams > 0;
    if loaded {
        if shown.split_throughput {
            if shown.download || shown.both {
                list.push(Chart::Download);
            }
            if shown.upload || shown.both {
                list.push(Chart::Upload);
            }
        } else {
            list.push(Chart::Throughput);
        }
    }
    list.push(Chart::Latency);
    if shown.peer_latency {
        list.push(Chart::PeerLatency);
    }
    if loaded && shown.transferred {
        list.push(Chart::Transferred);
    }
    proof {
        assert(list@ =~= chart_list(shown));
    }
    list
}

/// The height in pixels of a picture for which none was asked: more where
/// the latency of a peer is shown too.
pub fn default_height(peer_latency: bool) -> (height: u64)
    ensures
        height == if peer_latency {
            1100u64
        } else {
            720u64
        },
{
    let mut height: u64 = 720;
    if peer_latency {
        height = height + 380;
    }
    height
}

/// How the line of one stream is drawn among the lines of its group.
#[derive(Clone, Copy, Debug, PartialEq, Eq, Structural)]
pub enum Shade {
    /// The last line of the group, which is the total of the group.
    Main,
    /// A line before the last, at an even index.
    Even,
    /// A line before the last, at an odd index.
    Odd,
}

/// The shade of the line at `index` among `count` lines.
pub fn shade(index: usize, count: usize) -> (shade: Shade)
    requires
        index < count,
    ensures
        shade == if index == count - 1 {
            Shade::Main
        } else if index % 2 == 0 {
            Shade::Even
        } else {
            Shade::Odd
        },
{
    if index == count - 1 {
        Shade::Main
    } else if index % 2 == 0 {
        Shade::Even
    } else {
        Shade::Odd
    }
}

/// How a probe that never completed is marked.
#[derive(Clone, Copy, Debug, PartialEq, Eq, Structural)]
pub enum Loss {
    /// Lost on the way up: nothing came back.
    Up,
    /// Lost on the way down: the way up is known, the round trip is not.
    Down,
    /// Lost, on a way that the recording does not tell.
    Unknown,
}

/// Whether the round trip of a probe is known.
pub open spec fn completed(ping: RawPing) -> bool {
    match ping.latency {
        Some(latency) => latency.total is Some,
        None => false,
    }
}

/// The mark of a probe: none where its round trip is known. Recordings
/// before version 2 do not tell the two ways apart.
pub open spec fn loss_of(version: u64, ping: RawPing) -> Option<Loss> {
    if completed(ping) {
        None
    } else if version >= 2 {
        if ping.latency is None {
            Some(Loss::Up)
        } else {
            Some(Loss::Down)
        }
    } else {
        Some(Loss::Unknown)
    }
}

/// The mark of a probe in a recording of the given version.
pub fn loss_mark(version: u64, ping: &RawPing) -> (mark: Option<Loss>)
    ensures
        mark == loss_of(version, *ping),
{
    let done = match ping.latency {
        Some(latency) => latency.total.is_some(),
        None => false,
    };
    if done {
        None
    } else if version >= 2 {
        if ping.latency.is_none() {
            Some(Loss::Up)
        } else {
            Some(Loss::Down)
        }
    } else {
        Some(Loss::Unknown)
    }
}

/// The round trip of a probe, where it is known.
pub open spec fn total_of(ping: RawPing) -> Option<u64> {
    match ping.latency {
        Some(latency) => latency.total,
        None => None,
    }
}

/// The longest round trip among the probes; none where no probe completed.
pub fn max_total_latency(pings: &Vec<RawPing>) -> (longest: Option<u64>)
    ensures
        longest is None <==> forall|i: int|
            0 <= i < pings@.len() ==> total_of(#[trigger] pings@[i]) is None,
        longest matches Some(most) ==> {
            &&& exists|i: int| 0 <= i < pings@.len() && total_of(#[trigger] pings@[i]) == Some(most)
            &&& forall|i: int|
                0 <= i < pings@.len() ==> (total_of(#[trigger] pings@[i]) matches Some(total)
                    ==> total <= most)
        },
{
    let mut longest: Option<u64> = None;
    let mut i: usize = 0;
    while i < pings.len()
        invariant
            i <= pings@.len(),
            longest is None <==> forall|k: int|
                0 <= k < i ==> total_of(#[trigger] pings@[k]) is None,
            longest matches Some(most) ==> {
                &&& exists|k: int| 0 <= k < i && total_of(#[trigger] pings@[k]) == Some(most)
                &&& forall|k: int|
                    0 <= k < i ==> (total_of(#[trigger] pings@[k]) matches Some(total) ==> total
                        <= most)
            },
        decreases pings@.len() - i,
    {
        let total = match pings[i].latency {
            Some(latency) => latency.total,
            None => None,
        };
        proof {
            assert(total == total_of(pings@[i as int]));
        }
        match total {
            Some(total) => {
                let more = match longest {
                    Some(most) => total > most,
                    None => true,
                };
                if more {
                    longest = Some(total);
                }
            },
            None => {},
        }
        i = i + 1;
    }
    longest
}

/// One of the three latencies of a probe.
#[derive(Clone, Copy, Debug, PartialEq, Eq, Structural)]
pub enum LatencyPart {
    /// From the client to the server.
    Up,
    /// From the server back to the client.
    Down,
    /// The round trip.
    Total,
}

/// A run of probes in a row: those from `start` up to, not including, `end`.
#[derive(Clone, Copy, Debug, PartialEq, Eq, Structural)]
pub struct Run {
    pub start: usize,
    pub end: usize,
}

/// Whether a probe has the given latency: the way up is known of every
/// probe that was answered, the other two only where the round trip is.
pub open spec fn shows(ping: RawPing, part: LatencyPart) -> bool {
    match ping.latency {
        Some(latency) => part == LatencyPart::Up || latency.total is Some,
        None => false,
    }
}

/// Whether `run` is a run of probes that all have the latency and that
/// cannot be made longer at either end.
pub open spec fn is_run(pings: Seq<RawPing>, part: LatencyPart, run: Run) -> bool {
    &&& run.start < run.end <= pings.len()
    &&& forall|i: int| run.start <= i < run.end ==> shows(#[trigger] pings[i], part)
    &&& run.start > 0 ==> !shows(pings[run.start - 1], part)
    &&& run.end < pings.len() ==> !shows(pings[run.end as int], part)
}

/// Whether `runs` are all the longest runs of probes with the latency, from
/// first to last.
#[verifier::opaque]
pub open spec fn are_runs(pings: Seq<RawPing>, part: LatencyPart, runs: Seq<Run>) -> bool {
    &&& forall|r: int| 0 <= r < runs.len() ==> is_run(pings, part, #[trigger] runs[r])
    &&& forall|r: int| 0 < r < runs.len() ==> runs[r - 1].end < (#[trigger] runs[r]).start
    &&& forall|i: int|
        0 <= i < pings.len() && shows(#[trigger] pings[i], part) ==> exists|r: int|
            0 <= r < runs.len() && (#[trigger] runs[r]).start <= i < runs[r].end
}

/// Whether a probe has the given latency.
pub fn has_part(ping: &RawPing, part: LatencyPart) -> (yes: bool)
    ensures
        yes == shows(*ping, part),
{
    match ping.latency {
        Some(latency) => match part {
            LatencyPart::Up => true,
            LatencyPart::Down => latency.total.is_some(),
            LatencyPart::Total => latency.total.is_some(),
        },
        None => false,
    }
}

/// The stretches of a latency line: the longest runs of probes that have
/// the latency. The line breaks wherever a probe lacks it.
pub fn latency_runs(pings: &Vec<RawPing>, part: LatencyPart) -> (runs: Vec<Run>)
    ensures
        are_runs(pings@, part, runs@),
{
    let n: usize = pings.len();
    let mut runs: Vec<Run> = Vec::new();
    let mut i: usize = 0;
    while i < n
        invariant
            n == pings@.len(),
            i <= n,
            0 < i < n ==> !shows(pings@[i - 1], part),
            forall|r: int| 0 <= r < runs@.len() ==> is_run(pings@, part, #[trigger] runs@[r]),
            forall|r: int| 0 < r < runs@.len() ==> runs@[r - 1].end < (#[trigger] runs@[r]).start,
            forall|r: int| 0 <= r < runs@.len() ==> (#[trigger] runs@[r]).end <= i,
            forall|r: int| 0 <= r < runs@.len() && i < n ==> (#[trigger] runs@[r]).end < i,
            forall|k: int|
                0 <= k < i && shows(#[trigger] pings@[k], part) ==> exists|r: int|
                    0 <= r < runs@.len() && (#[trigger] runs@[r]).start <= k < runs@[r].end,
        decreases n - i,
    {
        if !has_part(&pings[i], part) {
            i = i + 1;
        } else {
            let start: usize = i;
            let mut end: usize = i + 1;
            while end < n && has_part(&pings[end], part)
                invariant
                    n == pings@.len(),
                    start < end <= n,
                    forall|k: int| start <= k < end ==> shows(#[trigger] pings@[k], part),
                decreases n - end,
            {
                end = end + 1;
            }
            let ghost before = runs@;
            runs.push(Run { start, end });
            proof {
                let last = before.len() as int;
                assert(is_run(pings@, part, runs@[last]));
                assert forall|r: int| 0 <= r < runs@.len() implies is_run(
                    pings@,
                    part,
                    #[trigger] runs@[r],
                ) by {
                    if r < last {
                        assert(runs@[r] == before[r]);
                    }
                }
                assert forall|r: int| 0 < r < runs@.len() implies runs@[r - 1].end < (
                #[trigger] runs@[r]).start by {
                    assert(runs@[r - 1] == before[r - 1]);
                    if r < last {
                        assert(runs@[r] == before[r]);
                    }
                }
                assert forall|k: int|
                    0 <= k < end && shows(#[trigger] pings@[k], part) implies exists|r: int|
                    0 <= r < runs@.len() && (#[trigger] runs@[r]).start <= k < runs@[r].end by {
                    if k < start {
                        let r = choose|r: int|
                            0 <= r < before.len() && (#[trigger] before[r]).start <= k
                                < before[r].end;
                        assert(runs@[r] == before[r]);
                    } else {
                        assert(runs@[last].start <= k < runs@[last].end);
                    }
                }
            }
            if end < n {
                proof {
                    assert forall|k: int|
                        0 <= k < end + 1 && shows(#[trigger] pings@[k], part) implies exists|
                        r: int,
                    |
                        0 <= r < runs@.len() && (#[trigger] runs@[r]).start <= k
                            < runs@[r].end by {
                        assert(k < end);
                    }
                }
                i = end + 1;
            } else {
                i = end;
            }
        }
    }
    proof {
        reveal(are_runs);
    }
    runs
}

/// There is only one list of longest runs.
pub proof fn lemma_runs_unique(
    pings: Seq<RawPing>,
    part: LatencyPart,
    one: Seq<Run>,
    other: Seq<Run>,
)
    requires
        are_runs(pings, part, one),
        are_runs(pings, part, other),
    ensures
        one == other,
{
    lemma_runs_prefix(pings, part, one, other, one.len() as int);
    lemma_runs_prefix(pings, part, other, one, other.len() as int);
    assert(one =~= other);
}

/// Each run of a list of longest runs is a longest run.
proof fn lemma_run_at(pings: Seq<RawPing>, part: LatencyPart, runs: Seq<Run>, r: int)
    requires
        are_runs(pings, part, runs),
        0 <= r < runs.len(),
    ensures
        is_run(pings, part, runs[r]),
        runs[r].start < runs[r].end <= pings.len(),
        shows(pings[runs[r].start as int], part),
{
    reveal(are_runs);
}

/// A probe with the latency lies in one of the longest runs.
proof fn lemma_run_over(pings: Seq<RawPing>, part: LatencyPart, runs: Seq<Run>, i: int) -> (r:
    int)
    requires
        are_runs(pings, part, runs),
        0 <= i < pings.len(),
        shows(pings[i], part),
    ensures
        0 <= r < runs.len(),
        runs[r].start <= i < runs[r].end,
        is_run(pings, part, runs[r]),
{
    reveal(are_runs);
    choose|r: int| 0 <= r < runs.len() && (#[trigger] runs[r]).start <= i < runs[r].end
}

/// Two lists of longest runs agree on their first `count` runs.
proof fn lemma_runs_prefix(
    pings: Seq<RawPing>,
    part: LatencyPart,
    one: Seq<Run>,
    other: Seq<Run>,
    count: int,
)
    requires
        are_runs(pings, part, one),
        are_runs(pings, part, other),
        0 <= count <= one.len(),
    ensures
        count <= other.len(),
        forall|r: int| 0 <= r < count ==> one[r] == other[r],
    decreases count,
{
    if count > 0 {
        let c = count - 1;
        lemma_runs_prefix(pings, part, one, other, c);
        let run = one[c];
        lemma_run_at(pings, part, one, c);
        let r = lemma_run_over(pings, part, other, run.start as int);
        lemma_same_run(pings, part, run, other[r], run.start as int);
        if r < c {
            assert(one[r] == other[r]);
            lemma_runs_ordered(pings, part, one, r, c);
        } else if r > c {
            let early = other[c];
            lemma_run_at(pings, part, other, c);
            lemma_runs_ordered(pings, part, other, c, r);
            let q = lemma_run_over(pings, part, one, early.start as int);
            lemma_same_run(pings, part, one[q], early, early.start as int);
            if q < c {
                assert(one[q] == other[q]);
                lemma_runs_ordered(pings, part, other, q, c);
            } else if q > c {
                lemma_runs_ordered(pings, part, one, c, q);
            }
        }
    }
}

/// Runs further down a list begin after the end of those before them.
proof fn lemma_runs_ordered(
    pings: Seq<RawPing>,
    part: LatencyPart,
    runs: Seq<Run>,
    early: int,
    late: int,
)
    requires
        are_runs(pings, part, runs),
        0 <= early < late < runs.len(),
    ensures
        runs[early].end < runs[late].start,
    decreases late - early,
{
    reveal(are_runs);
    assert(runs[late - 1].end < runs[late].start);
    if early < late - 1 {
        lemma_runs_ordered(pings, part, runs, early, late - 1);
        assert(is_run(pings, part, runs[late - 1]));
    }
}

/// Two longest runs that share a probe are the same run.
proof fn lemma_same_run(pings: Seq<RawPing>, part: LatencyPart, one: Run, other: Run, at: int)
    requires
        is_run(pings, part, one),
        is_run(pings, part, other),
        one.start <= at < one.end,
        other.start <= at < other.end,
    ensures
        one == other,
{
    if one.start < other.start {
        assert(shows(pings[other.start - 1], part));
    } else if other.start < one.start {
        assert(shows(pings[one.start - 1], part));
    }
    if one.end < other.end {
        assert(shows(pings[one.end as int], part));
    } else if other.end < one.end {
        assert(shows(pings[other.end as int], part));
    }
}

} // verus!
