//! Assembly of all series of one test run.
//!
//! A run holds groups of streams. A group is tagged with its direction and
//! with whether it ran while the opposite direction was loaded too. The
//! result holds, for each group, the running totals of its streams; for each
//! of the four kinds of group, the sum of the first group of that kind; the
//! sums per direction; and the sum of the two groups of the simultaneous
//! phase.

use crate::aggregate::{
    all_fit_grid, lemma_summed_times, point_times, points_of, sample_times, sum_bytes, summed,
    times_of, SumPoint, SumSample,
};
use crate::grid::ceil_to_grid;
use crate::resample::fits_grid;
use vstd::prelude::*;

verus! {

/// What came back of one latency probe: the time of the round trip, where it
/// completed, and the time of the way up, both in nanoseconds.
#[derive(Clone, Copy, Debug, PartialEq, Eq, Structural)]
pub struct RawLatency {
    pub total: Option<u64>,
    pub up: u64,
}

/// One latency probe: when it was sent, in nanoseconds, and what came back,
/// if anything did.
#[derive(Clone, Copy, Debug, PartialEq, Eq, Structural)]
pub struct RawPing {
    pub index: u64,
    pub sent: u64,
    pub latency: Option<RawLatency>,
}

/// The streams of one direction in one phase of a run. A stream is a sequence
/// of samples: a time in microseconds and the bytes counted up to then.
#[derive(Clone, Debug, PartialEq, Eq)]
pub struct RawStreamGroup {
    pub download: bool,
    pub both: bool,
    pub streams: Vec<Vec<(u64, u64)>>,
}

/// A recorded test run. `bandwidth_interval` is the step of the grid on which
/// all series of the run are put, in microseconds as the times of the stream
/// samples are. `start` and `duration` are in nanoseconds.
#[derive(Clone, Debug, PartialEq, Eq)]
pub struct RawResult {
    pub start: u64,
    pub duration: u64,
    pub bandwidth_interval: u64,
    pub stream_groups: Vec<RawStreamGroup>,
    pub pings: Vec<RawPing>,
}

/// The running total of the streams of a group up to one of them.
#[derive(Clone, Debug, PartialEq, Eq)]
pub struct TestStream {
    pub data: Vec<SumSample>,
}

/// The running totals of a group: one for each of its streams.
#[derive(Clone, Debug, PartialEq, Eq)]
pub struct TestStreamGroup {
    pub download: bool,
    pub both: bool,
    pub streams: Vec<TestStream>,
}

/// All series of a test run.
///
/// The terms of a sum over the streams of a group name samples of those
/// streams. The terms of `combined_download_bytes` name points of
/// `download_bytes` and `both_download_bytes`, those that are present, in
/// that order; likewise for upload. The terms of `both_bytes` name points of
/// `both_download_bytes` and `both_upload_bytes`.
#[derive(Clone, Debug, PartialEq, Eq)]
pub struct TestResult {
    pub start: u64,
    pub duration: u64,
    pub download_bytes: Option<Vec<SumSample>>,
    pub upload_bytes: Option<Vec<SumSample>>,
    pub combined_download_bytes: Vec<SumSample>,
    pub combined_upload_bytes: Vec<SumSample>,
    pub both_download_bytes: Option<Vec<SumSample>>,
    pub both_upload_bytes: Option<Vec<SumSample>>,
    pub both_bytes: Option<Vec<SumSample>>,
    pub pings: Vec<RawPing>,
    pub stream_groups: Vec<TestStreamGroup>,
}

/// Why a run cannot be turned into series.
#[derive(Clone, Copy, Debug, PartialEq, Eq, Structural)]
pub enum RunError {
    /// The grid step is zero.
    ZeroInterval,
    /// The grid of some stream would end beyond 64 bits.
    TimeOutOfRange,
    /// Some group ran in the simultaneous phase, but that phase lacks its
    /// download group or its upload group.
    IncompleteBothPhase,
}

/// The timestamps of a stream.
pub open spec fn stream_times(stream: Seq<(u64, u64)>) -> Seq<u64> {
    Seq::new(stream.len(), |i: int| stream[i].0)
}

/// The index of the first group at or after `from` with the given tags.
pub open spec fn find_from(
    groups: Seq<RawStreamGroup>,
    from: int,
    download: bool,
    both: bool,
) -> Option<int>
    decreases groups.len() - from,
{
    if from < 0 || from >= groups.len() {
        None
    } else if groups[from].download == download && groups[from].both == both {
        Some(from)
    } else {
        find_from(groups, from + 1, download, both)
    }
}

/// The points of a series that may be absent.
pub open spec fn opt_points(series: Option<Vec<SumSample>>) -> Option<Seq<SumPoint>> {
    match series {
        Some(data) => Some(points_of(data@)),
        None => None,
    }
}

/// The times of those of two series that are present, in their order.
pub open spec fn present(
    first: Option<Seq<SumPoint>>,
    second: Option<Seq<SumPoint>>,
) -> Seq<Seq<u64>> {
    (match first {
        Some(a) => seq![point_times(a)],
        None => Seq::empty(),
    }) + (match second {
        Some(b) => seq![point_times(b)],
        None => Seq::empty(),
    })
}

impl RawStreamGroup {
    /// The timestamps of each stream of the group.
    pub open spec fn times(&self) -> Seq<Seq<u64>> {
        Seq::new(self.streams@.len(), |s: int| stream_times(self.streams@[s]@))
    }
}

impl TestStreamGroup {
    /// The points of the running total of each stream.
    pub open spec fn totals(&self) -> Seq<Seq<SumPoint>> {
        Seq::new(self.streams@.len(), |i: int| points_of(self.streams@[i].data@))
    }
}

impl RawResult {
    /// The index of the first group with the given tags.
    pub open spec fn find(&self, download: bool, both: bool) -> Option<int> {
        find_from(self.stream_groups@, 0, download, both)
    }

    /// Whether some group ran in the simultaneous phase.
    pub open spec fn has_both(&self) -> bool {
        exists|g: int| 0 <= g < self.stream_groups@.len() && (#[trigger] self.stream_groups@[g]).both
    }

    /// The sum of the streams of the first group with the given tags.
    pub open spec fn category(&self, download: bool, both: bool) -> Option<Seq<SumPoint>> {
        match self.find(download, both) {
            Some(g) => Some(summed(self.stream_groups@[g].times(), self.bandwidth_interval)),
            None => None,
        }
    }

    /// The sum over both phases of one direction: of the group that ran
    /// alone and the group of the simultaneous phase, as far as present.
    pub open spec fn combined(&self, download: bool) -> Seq<SumPoint> {
        summed(
            present(self.category(download, false), self.category(download, true)),
            self.bandwidth_interval,
        )
    }

    /// The sum of the download and the upload of the simultaneous phase;
    /// none where no group ran in that phase.
    pub open spec fn both_total(&self) -> Option<Seq<SumPoint>> {
        if self.has_both() {
            match (self.category(true, true), self.category(false, true)) {
                (Some(down), Some(up)) => Some(
                    summed(seq![point_times(down), point_times(up)], self.bandwidth_interval),
                ),
                _ => None,
            }
        } else {
            None
        }
    }

    /// The running totals of group `g`: for each stream, the sum of the
    /// streams of the group up to and including it.
    pub open spec fn totals(&self, g: int) -> Seq<Seq<SumPoint>> {
        Seq::new(
            self.stream_groups@[g].streams@.len(),
            |i: int| summed(self.stream_groups@[g].times().take(i + 1), self.bandwidth_interval),
        )
    }

    /// Whether the grid of every stream ends within 64 bits.
    pub open spec fn fits(&self) -> bool {
        forall|g: int|
            0 <= g < self.stream_groups@.len() ==> all_fit_grid(
                (#[trigger] self.stream_groups@[g]).times(),
                self.bandwidth_interval,
            )
    }

    /// Whether the simultaneous phase, if any group ran in it, has both its
    /// download group and its upload group.
    pub open spec fn both_complete(&self) -> bool {
        self.has_both() ==> self.find(true, true) is Some && self.find(false, true) is Some
    }

    /// Whether the run can be turned into series.
    pub open spec fn plottable(&self) -> bool {
        &&& self.bandwidth_interval > 0
        &&& self.fits()
        &&& self.both_complete()
    }
}

/// What `find_from` finds: the first group at or after `from` with the
/// given tags, and nothing where there is none.
pub proof fn lemma_find_from(groups: Seq<RawStreamGroup>, from: int, download: bool, both: bool)
    requires
        0 <= from <= groups.len(),
    ensures
        match find_from(groups, from, download, both) {
            Some(g) => {
                &&& from <= g < groups.len()
                &&& groups[g].download == download
                &&& groups[g].both == both
                &&& forall|h: int|
                    from <= h < g ==> !((#[trigger] groups[h]).download == download
                        && groups[h].both == both)
            },
            None => forall|h: int|
                from <= h < groups.len() ==> !((#[trigger] groups[h]).download == download
                    && groups[h].both == both),
        },
    decreases groups.len() - from,
{
    if from < groups.len() && !(groups[from].download == download && groups[from].both == both) {
        lemma_find_from(groups, from + 1, download, both);
    }
}

/// The last running total of a group is the sum of all its streams, and so
/// is the series of its kind where the group is the first of that kind.
pub proof fn lemma_last_total(run: RawResult, g: int)
    requires
        0 <= g < run.stream_groups@.len(),
        run.stream_groups@[g].streams@.len() > 0,
    ensures
        run.totals(g).last() == summed(run.stream_groups@[g].times(), run.bandwidth_interval),
        run.find(run.stream_groups@[g].download, run.stream_groups@[g].both) == Some(g)
            ==> run.category(run.stream_groups@[g].download, run.stream_groups@[g].both) == Some(
            run.totals(g).last(),
        ),
{
    let times = run.stream_groups@[g].times();
    assert(times.take(times.len() as int) =~= times);
}

/// The timestamps of a stream.
fn times_of_stream(stream: &Vec<(u64, u64)>) -> (times: Vec<u64>)
    ensures
        times@ == stream_times(stream@),
{
    let mut times: Vec<u64> = Vec::new();
    let mut i: usize = 0;
    while i < stream.len()
        invariant
            i <= stream@.len(),
            times@.len() == i,
            forall|j: int| 0 <= j < i ==> #[trigger] times@[j] == stream@[j].0,
        decreases stream@.len() - i,
    {
        times.push(stream[i].0);
        i = i + 1;
    }
    proof {
        assert(times@ =~= stream_times(stream@));
    }
    times
}

/// The timestamps of each stream of a group.
fn times_of_group(group: &RawStreamGroup) -> (times: Vec<Vec<u64>>)
    ensures
        times_of(times@) == group.times(),
{
    let mut times: Vec<Vec<u64>> = Vec::new();
    let mut s: usize = 0;
    while s < group.streams.len()
        invariant
            s <= group.streams@.len(),
            times@.len() == s,
            forall|j: int| 0 <= j < s ==> (#[trigger] times@[j])@ == stream_times(group.streams@[j]@),
        decreases group.streams@.len() - s,
    {
        times.push(times_of_stream(&group.streams[s]));
        s = s + 1;
    }
    proof {
        assert(times_of(times@) =~= group.times());
    }
    times
}

/// Whether the grid of every stream of a group ends within 64 bits.
fn group_fits(group: &RawStreamGroup, interval: u64) -> (fits: bool)
    requires
        interval > 0,
    ensures
        fits == all_fit_grid(group.times(), interval),
{
    let mut s: usize = 0;
    while s < group.streams.len()
        invariant
            interval > 0,
            s <= group.streams@.len(),
            forall|j: int| 0 <= j < s ==> fits_grid(#[trigger] group.times()[j], interval),
        decreases group.streams@.len() - s,
    {
        let stream = &group.streams[s];
        let n: usize = stream.len();
        proof {
            assert(group.times()[s as int] == stream_times(stream@));
            if n > 0 {
                assert(stream_times(stream@).last() == stream@[n - 1].0);
            }
        }
        if n > 0 && ceil_to_grid(stream[n - 1].0, interval).is_none() {
            proof {
                assert(!fits_grid(group.times()[s as int], interval));
            }
            return false;
        }
        s = s + 1;
    }
    true
}

/// The running totals of the streams of a group.
fn running_totals(group: &RawStreamGroup, interval: u64) -> (totals: TestStreamGroup)
    requires
        interval > 0,
        all_fit_grid(group.times(), interval),
    ensures
        totals.download == group.download,
        totals.both == group.both,
        totals.totals() == Seq::new(
            group.streams@.len(),
            |i: int| summed(group.times().take(i + 1), interval),
        ),
{
    let mut upto: Vec<Vec<u64>> = Vec::new();
    let mut streams: Vec<TestStream> = Vec::new();
    let mut i: usize = 0;
    while i < group.streams.len()
        invariant
            interval > 0,
            all_fit_grid(group.times(), interval),
            i <= group.streams@.len(),
            upto@.len() == i,
            times_of(upto@) == group.times().take(i as int),
            streams@.len() == i,
            forall|j: int|
                0 <= j < i ==> points_of((#[trigger] streams@[j]).data@) == summed(
                    group.times().take(j + 1),
                    interval,
                ),
        decreases group.streams@.len() - i,
    {
        let ghost before = upto@;
        upto.push(times_of_stream(&group.streams[i]));
        proof {
            assert(times_of(upto@) =~= group.times().take(i + 1)) by {
                assert forall|j: int| 0 <= j < i + 1 implies times_of(upto@)[j]
                    == group.times().take(i + 1)[j] by {
                    if j < i {
                        assert(times_of(upto@)[j] == times_of(before)[j]);
                        assert(times_of(before)[j] == group.times().take(i as int)[j]);
                    }
                }
            }
            assert forall|s: int| 0 <= s < i + 1 implies fits_grid(
                #[trigger] group.times().take(i + 1)[s],
                interval,
            ) by {
                assert(fits_grid(group.times()[s], interval));
            }
        }
        streams.push(TestStream { data: sum_bytes(&upto, interval) });
        i = i + 1;
    }
    let totals = TestStreamGroup { download: group.download, both: group.both, streams };
    proof {
        assert(totals.totals() =~= Seq::new(
            group.streams@.len(),
            |i: int| summed(group.times().take(i + 1), interval),
        ));
    }
    totals
}

/// The sum of those of two summed series that are present.
fn sum_present(
    first: &Option<Vec<SumSample>>,
    second: &Option<Vec<SumSample>>,
    interval: u64,
) -> (data: Vec<SumSample>)
    requires
        interval > 0,
        all_fit_grid(present(opt_points(*first), opt_points(*second)), interval),
    ensures
        points_of(data@) == summed(present(opt_points(*first), opt_points(*second)), interval),
{
    let mut input: Vec<Vec<u64>> = Vec::new();
    match first {
        Some(a) => {
            input.push(sample_times(a));
        },
        None => {},
    }
    match second {
        Some(b) => {
            input.push(sample_times(b));
        },
        None => {},
    }
    proof {
        assert(times_of(input@) =~= present(opt_points(*first), opt_points(*second)));
    }
    sum_bytes(&input, interval)
}

impl RawResult {
    /// Whether some group ran in the simultaneous phase.
    pub fn both(&self) -> (any: bool)
        ensures
            any == self.has_both(),
    {
        let mut g: usize = 0;
        while g < self.stream_groups.len()
            invariant
                g <= self.stream_groups@.len(),
                forall|h: int| 0 <= h < g ==> !(#[trigger] self.stream_groups@[h]).both,
            decreases self.stream_groups@.len() - g,
        {
            if self.stream_groups[g].both {
                return true;
            }
            g = g + 1;
        }
        false
    }

    /// The index of the first group with the given tags.
    pub fn find_group(&self, download: bool, both: bool) -> (found: Option<usize>)
        ensures
            match found {
                Some(g) => self.find(download, both) == Some(g as int) && g
                    < self.stream_groups@.len(),
                None => self.find(download, both) is None,
            },
    {
        let mut g: usize = 0;
        while g < self.stream_groups.len()
            invariant
                g <= self.stream_groups@.len(),
                self.find(download, both) == find_from(self.stream_groups@, g as int, download, both),
            decreases self.stream_groups@.len() - g,
        {
            if self.stream_groups[g].download == download && self.stream_groups[g].both == both {
                return Some(g);
            }
            g = g + 1;
        }
        None
    }

    /// Says whether the run can be turned into series, and if not, why not.
    pub fn validate(&self) -> (outcome: Result<(), RunError>)
        ensures
            outcome is Ok <==> self.plottable(),
            outcome == Err::<(), RunError>(RunError::ZeroInterval) <==> self.bandwidth_interval
                == 0,
            outcome == Err::<(), RunError>(RunError::TimeOutOfRange) <==> self.bandwidth_interval
                > 0 && !self.fits(),
            outcome == Err::<(), RunError>(RunError::IncompleteBothPhase)
                <==> self.bandwidth_interval > 0 && self.fits() && !self.both_complete(),
    {
        let interval: u64 = self.bandwidth_interval;
        if interval == 0 {
            return Err(RunError::ZeroInterval);
        }
        let mut g: usize = 0;
        while g < self.stream_groups.len()
            invariant
                interval == self.bandwidth_interval,
                interval > 0,
                g <= self.stream_groups@.len(),
                forall|h: int|
                    0 <= h < g ==> all_fit_grid(
                        (#[trigger] self.stream_groups@[h]).times(),
                        interval,
                    ),
            decreases self.stream_groups@.len() - g,
        {
            if !group_fits(&self.stream_groups[g], interval) {
                return Err(RunError::TimeOutOfRange);
            }
            g = g + 1;
        }
        if self.both() && (self.find_group(true, true).is_none() || self.find_group(
            false,
            true,
        ).is_none()) {
            return Err(RunError::IncompleteBothPhase);
        }
        Ok(())
    }

    /// The sum of the streams of the first group with the given tags.
    fn category_series(&self, download: bool, both: bool) -> (series: Option<Vec<SumSample>>)
        requires
            self.bandwidth_interval > 0,
            self.fits(),
        ensures
            opt_points(series) == self.category(download, both),
    {
        match self.find_group(download, both) {
            Some(g) => {
                let times: Vec<Vec<u64>> = times_of_group(&self.stream_groups[g]);
                proof {
                    assert(all_fit_grid(self.stream_groups@[g as int].times(), self.bandwidth_interval));
                }
                Some(sum_bytes(&times, self.bandwidth_interval))
            },
            None => None,
        }
    }

    /// A category's series, where present, can be summed again.
    proof fn lemma_category_fits(&self, download: bool, both: bool)
        requires
            self.bandwidth_interval > 0,
            self.fits(),
        ensures
            match self.category(download, both) {
                Some(points) => fits_grid(point_times(points), self.bandwidth_interval),
                None => true,
            },
    {
        lemma_find_from(self.stream_groups@, 0, download, both);
        match self.find(download, both) {
            Some(g) => {
                assert(all_fit_grid(self.stream_groups@[g].times(), self.bandwidth_interval));
                lemma_summed_times(self.stream_groups@[g].times(), self.bandwidth_interval);
            },
            None => {},
        }
    }

    /// Builds all series of the run.
    ///
    /// The grid step must not be zero, the grid of every stream must end
    /// within 64 bits, and a simultaneous phase must have both its groups:
    /// `validate` tells.
    pub fn to_test_result(&self) -> (result: TestResult)
        requires
            self.plottable(),
        ensures
            result.start == self.start,
            result.duration == self.duration,
            result.pings@ == self.pings@,
            opt_points(result.download_bytes) == self.category(true, false),
            opt_points(result.upload_bytes) == self.category(false, false),
            opt_points(result.both_download_bytes) == self.category(true, true),
            opt_points(result.both_upload_bytes) == self.category(false, true),
            points_of(result.combined_download_bytes@) == self.combined(true),
            points_of(result.combined_upload_bytes@) == self.combined(false),
            opt_points(result.both_bytes) == self.both_total(),
            result.both_bytes is Some <==> self.has_both(),
            result.stream_groups@.len() == self.stream_groups@.len(),
            forall|g: int|
                0 <= g < self.stream_groups@.len() ==> {
                    &&& (#[trigger] result.stream_groups@[g]).download
                        == self.stream_groups@[g].download
                    &&& result.stream_groups@[g].both == self.stream_groups@[g].both
                    &&& result.stream_groups@[g].totals() == self.totals(g)
                },
    {
        let interval: u64 = self.bandwidth_interval;

        let mut stream_groups: Vec<TestStreamGroup> = Vec::new();
        let mut g: usize = 0;
        while g < self.stream_groups.len()
            invariant
                interval == self.bandwidth_interval,
                self.plottable(),
                g <= self.stream_groups@.len(),
                stream_groups@.len() == g,
                forall|h: int|
                    0 <= h < g ==> {
                        &&& (#[trigger] stream_groups@[h]).download
                            == self.stream_groups@[h].download
                        &&& stream_groups@[h].both == self.stream_groups@[h].both
                        &&& stream_groups@[h].totals() == self.totals(h)
                    },
            decreases self.stream_groups@.len() - g,
        {
            proof {
                assert(all_fit_grid(self.stream_groups@[g as int].times(), interval));
            }
            stream_groups.push(running_totals(&self.stream_groups[g], interval));
            g = g + 1;
        }

        let download_bytes = self.category_series(true, false);
        let both_download_bytes = self.category_series(true, true);
        let upload_bytes = self.category_series(false, false);
        let both_upload_bytes = self.category_series(false, true);
        proof {
            self.lemma_category_fits(true, false);
            self.lemma_category_fits(true, true);
            self.lemma_category_fits(false, false);
            self.lemma_category_fits(false, true);
        }
        let combined_download_bytes = sum_present(&download_bytes, &both_download_bytes, interval);
        let combined_upload_bytes = sum_present(&upload_bytes, &both_upload_bytes, interval);

        let both_bytes = if self.both() {
            let both_bytes = sum_present(&both_download_bytes, &both_upload_bytes, interval);
            proof {
                lemma_find_from(self.stream_groups@, 0, true, true);
                lemma_find_from(self.stream_groups@, 0, false, true);
                assert(present(opt_points(both_download_bytes), opt_points(both_upload_bytes))
                    =~= seq![
                    point_times(self.category(true, true).unwrap()),
                    point_times(self.category(false, true).unwrap()),
                ]);
            }
            Some(both_bytes)
        } else {
            None
        };

        let mut pings: Vec<RawPing> = Vec::new();
        let mut p: usize = 0;
        while p < self.pings.len()
            invariant
                p <= self.pings@.len(),
                pings@ == self.pings@.take(p as int),
            decreases self.pings@.len() - p,
        {
            pings.push(self.pings[p]);
            proof {
                assert(pings@ =~= self.pings@.take(p + 1));
            }
            p = p + 1;
        }
        proof {
            assert(self.pings@.take(p as int) =~= self.pings@);
        }

        TestResult {
            start: self.start,
            duration: self.duration,
            download_bytes,
            upload_bytes,
            combined_download_bytes,
            combined_upload_bytes,
            both_download_bytes,
            both_upload_bytes,
            both_bytes,
            pings,
            stream_groups,
        }
    }
}

} // verus!
