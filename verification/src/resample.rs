//! Resampling of one series onto a uniform grid.
//!
//! A series is given by the timestamps of its samples. The result names, for
//! every grid point, the sample whose value the point takes, or the pair of
//! neighbouring samples between which it is interpolated and the weight.

use crate::grid::{
    ceil_to_grid, floor_to_grid, grid_ceil, grid_floor, grid_len, grid_point, grid_points,
    grid_times, lemma_grid_ceil, lemma_grid_distance, lemma_grid_floor, lemma_grid_points,
    lemma_on_grid_fixed, lemma_step_count, lemma_step_on_grid, on_grid,
};
use vstd::prelude::*;

verus! {

/// Where the value at a grid point comes from, in terms of the samples of the
/// series that was resampled.
#[derive(Clone, Copy, Debug, PartialEq, Eq, Structural)]
pub enum Source {
    /// The value of the sample at `index`, unchanged.
    Sample { index: usize },
    /// The value on the straight line from the sample at `index - 1` to the
    /// sample at `index`, at the fraction `num / den` of the way.
    Between { index: usize, num: u64, den: u64 },
}

/// One point of a resampled series.
#[derive(Clone, Copy, Debug, PartialEq, Eq, Structural)]
pub struct GridSample {
    pub time: u64,
    pub source: Source,
}

/// The first index at or after `from` whose timestamp is not below `point`;
/// the length of `times` where there is none.
pub open spec fn scan_from(times: Seq<u64>, from: int, point: u64) -> int
    decreases times.len() - from,
{
    if 0 <= from < times.len() && times[from] < point {
        scan_from(times, from + 1, point)
    } else {
        from
    }
}

/// The index of the first sample whose timestamp is not below `point`; the
/// number of samples where every timestamp is below it.
pub open spec fn first_at_or_after(times: Seq<u64>, point: u64) -> int {
    scan_from(times, 0, point)
}

/// Where the value at `point` comes from. Past the last sample and before the
/// first one the series is flat; on a sample it has that sample's value; in
/// between it is interpolated.
pub open spec fn source_at(times: Seq<u64>, point: u64) -> Source {
    let i = first_at_or_after(times, point);
    if i == times.len() {
        Source::Sample { index: (times.len() - 1) as usize }
    } else if times[i] == point || i == 0 {
        Source::Sample { index: i as usize }
    } else {
        Source::Between {
            index: i as usize,
            num: (point - times[i - 1]) as u64,
            den: (times[i] - times[i - 1]) as u64,
        }
    }
}

/// Whether the grid of a series ends within 64 bits.
pub open spec fn fits_grid(times: Seq<u64>, interval: u64) -> bool {
    times.len() > 0 ==> grid_ceil(times.last() as int, interval as int) <= u64::MAX
}

/// The first grid point of a series: its first timestamp, rounded down.
pub open spec fn grid_start(times: Seq<u64>, interval: u64) -> u64
    recommends
        times.len() > 0,
{
    grid_floor(times.first() as int, interval as int) as u64
}

/// The last grid point of a series: its last timestamp, rounded up.
pub open spec fn grid_end(times: Seq<u64>, interval: u64) -> u64
    recommends
        times.len() > 0,
{
    grid_ceil(times.last() as int, interval as int) as u64
}

/// The resampled series: one point at every multiple of `interval` from the
/// grid start to the grid end, each with its source. Empty for an empty series.
pub open spec fn resampled(times: Seq<u64>, interval: u64) -> Seq<GridSample> {
    if times.len() == 0 {
        Seq::empty()
    } else {
        let min = grid_start(times, interval);
        let max = grid_end(times, interval);
        Seq::new(
            grid_len(min as int, max as int, interval as int),
            |k: int|
                GridSample {
                    time: grid_point(min as int, k, interval as int) as u64,
                    source: source_at(times, grid_point(min as int, k, interval as int) as u64),
                },
        )
    }
}

/// What `scan_from` finds: everything it passed is below `point`, and where
/// it stopped inside the series the timestamp is not.
pub proof fn lemma_scan_from(times: Seq<u64>, from: int, point: u64)
    requires
        0 <= from <= times.len(),
    ensures
        from <= scan_from(times, from, point) <= times.len(),
        forall|j: int| from <= j < scan_from(times, from, point) ==> #[trigger] times[j] < point,
        scan_from(times, from, point) < times.len() ==> times[scan_from(times, from, point)]
            >= point,
    decreases times.len() - from,
{
    if from < times.len() && times[from] < point {
        lemma_scan_from(times, from + 1, point);
    }
}

/// `first_at_or_after` is the only index with everything before it below
/// `point` and nothing below `point` at it.
pub proof fn lemma_first_at_or_after(times: Seq<u64>, point: u64, i: int)
    requires
        0 <= i <= times.len(),
        forall|j: int| 0 <= j < i ==> #[trigger] times[j] < point,
        i < times.len() ==> times[i] >= point,
    ensures
        first_at_or_after(times, point) == i,
{
    lemma_scan_from(times, 0, point);
    let f = first_at_or_after(times, point);
    if f < i {
        assert(times[f] < point);
    } else if f > i {
        assert(times[i] < point);
    }
}

/// A source names samples that exist, and an interpolated point lies strictly
/// between its two neighbours: the weight `num / den` is above 0 and below 1.
pub proof fn lemma_source_in_bracket(times: Seq<u64>, point: u64)
    requires
        0 < times.len() <= usize::MAX,
    ensures
        match source_at(times, point) {
            Source::Sample { index } => index < times.len() && (times[index as int] == point
                || index == 0 || index == times.len() - 1),
            Source::Between { index, num, den } => {
                &&& 0 < index < times.len()
                &&& times[index - 1] < point < times[index as int]
                &&& num == point - times[index - 1]
                &&& den == times[index as int] - times[index - 1]
                &&& 0 < num < den
            },
        },
{
    lemma_scan_from(times, 0, point);
    let i = first_at_or_after(times, point);
    if i < times.len() && times[i] != point && i != 0 {
        assert(times[i - 1] < point);
    }
}

/// The ends of a resampled series: it has a point exactly where the grid
/// start is not above the grid end, it then begins at the grid start and ends
/// at the grid end, and each of its points is a whole number of steps above
/// the grid start.
pub proof fn lemma_resampled_ends(times: Seq<u64>, interval: u64)
    requires
        interval > 0,
        fits_grid(times, interval),
        times.len() > 0,
    ensures
        resampled(times, interval).len() == grid_len(
            grid_start(times, interval) as int,
            grid_end(times, interval) as int,
            interval as int,
        ),
        resampled(times, interval).len() > 0 <==> grid_start(times, interval) <= grid_end(
            times,
            interval,
        ),
        resampled(times, interval).len() > 0 ==> {
            &&& resampled(times, interval).first().time == grid_start(times, interval)
            &&& resampled(times, interval).last().time == grid_end(times, interval)
            &&& resampled(times, interval).last().source == source_at(
                times,
                grid_end(times, interval),
            )
        },
        forall|k: int|
            0 <= k < resampled(times, interval).len() ==> (#[trigger] resampled(
                times,
                interval,
            )[k]).time == grid_point(grid_start(times, interval) as int, k, interval as int),
        on_grid(grid_start(times, interval) as int, interval as int),
        on_grid(grid_end(times, interval) as int, interval as int),
{
    let min = grid_start(times, interval);
    let max = grid_end(times, interval);
    lemma_grid_floor(times.first() as int, interval as int);
    lemma_grid_ceil(times.last() as int, interval as int);
    lemma_grid_points(min, max, interval);
    let n = grid_len(min as int, max as int, interval as int);
    assert(grid_points(min, max, interval).len() == n);
    assert forall|k: int| 0 <= k < n implies (#[trigger] resampled(times, interval)[k]).time
        == grid_point(min as int, k, interval as int) by {
        assert(min <= grid_point(min as int, k, interval as int) <= max);
    }
    if min <= max {
        vstd::arithmetic::div_mod::lemma_div_pos_is_pos(max - min, interval as int);
        lemma_grid_distance(min as int, max as int, interval as int);
        assert(grid_point(min as int, 0, interval as int) == min) by (nonlinear_arith);
        assert(grid_point(min as int, n - 1, interval as int) == max);
    }
}

/// The value that a source stands for when the samples have the given exact
/// values, multiplied by `source_scale` so that it stays a whole number.
pub open spec fn scaled_value(source: Source, values: Seq<int>) -> int {
    match source {
        Source::Sample { index } => values[index as int],
        Source::Between { index, num, den } => values[index - 1] * den + (values[index as int]
            - values[index - 1]) * num,
    }
}

/// The factor by which `scaled_value` is multiplied.
pub open spec fn source_scale(source: Source) -> int {
    match source {
        Source::Sample { index } => 1,
        Source::Between { index, num, den } => den as int,
    }
}

/// Interpolation never overshoots: in exact arithmetic the value at any
/// point is the value of a sample, or lies between the values of the two
/// samples around the point.
pub proof fn lemma_never_overshoots(times: Seq<u64>, values: Seq<int>, point: u64)
    requires
        0 < times.len() <= usize::MAX,
        values.len() == times.len(),
    ensures
        match source_at(times, point) {
            Source::Sample { index } => index < times.len() && scaled_value(
                source_at(times, point),
                values,
            ) == values[index as int],
            Source::Between { index, num, den } => {
                let low = if values[index - 1] <= values[index as int] {
                    values[index - 1]
                } else {
                    values[index as int]
                };
                let high = if values[index - 1] <= values[index as int] {
                    values[index as int]
                } else {
                    values[index - 1]
                };
                &&& 0 < index < times.len()
                &&& source_scale(source_at(times, point)) > 0
                &&& low * source_scale(source_at(times, point)) <= scaled_value(
                    source_at(times, point),
                    values,
                ) <= high * source_scale(source_at(times, point))
            },
        },
{
    lemma_source_in_bracket(times, point);
    match source_at(times, point) {
        Source::Sample { index } => {},
        Source::Between { index, num, den } => {
            let left = values[index - 1];
            let right = values[index as int];
            let n = num as int;
            let d = den as int;
            assert(left <= right ==> left * d <= left * d + (right - left) * n <= right * d)
                by (nonlinear_arith)
                requires
                    0 < n < d,
            ;
            assert(right <= left ==> right * d <= left * d + (right - left) * n <= left * d)
                by (nonlinear_arith)
                requires
                    0 < n < d,
            ;
        },
    }
}

/// Whether the timestamps are consecutive points of the grid: the first on
/// the grid, each of the others one step after the one before it.
pub open spec fn is_grid_series(times: Seq<u64>, interval: u64) -> bool {
    &&& times.len() > 0 ==> on_grid(times.first() as int, interval as int)
    &&& forall|k: int| 0 < k < times.len() ==> #[trigger] times[k] == times[k - 1] + interval
}

/// In a series of consecutive grid points the point at index `k` is `k`
/// steps after the first.
pub proof fn lemma_grid_series_point(times: Seq<u64>, interval: u64, k: int)
    requires
        is_grid_series(times, interval),
        0 <= k < times.len(),
    ensures
        times[k] == grid_point(times.first() as int, k, interval as int),
    decreases k,
{
    if k > 0 {
        lemma_grid_series_point(times, interval, k - 1);
        assert(times[k] == times[k - 1] + interval);
        assert(k * interval == (k - 1) * interval + interval) by (nonlinear_arith);
    } else {
        assert(0 * interval == 0) by (nonlinear_arith);
    }
}

/// Resampling is idempotent: a series of consecutive grid points resampled
/// at the same interval comes back unchanged, each point taking the value of
/// the sample at its own index.
pub proof fn lemma_resample_idempotent(times: Seq<u64>, interval: u64)
    requires
        interval > 0,
        times.len() <= usize::MAX,
        is_grid_series(times, interval),
    ensures
        fits_grid(times, interval),
        resampled(times, interval) == Seq::new(
            times.len(),
            |k: int| GridSample { time: times[k], source: Source::Sample { index: k as usize } },
        ),
{
    let same = Seq::new(
        times.len(),
        |k: int| GridSample { time: times[k], source: Source::Sample { index: k as usize } },
    );
    if times.len() == 0 {
        assert(resampled(times, interval) =~= same);
    } else {
        let first = times.first();
        let last = times.last();
        let n = times.len() as int;
        assert forall|k: int| 0 <= k < n implies #[trigger] times[k] == grid_point(
            first as int,
            k,
            interval as int,
        ) by {
            lemma_grid_series_point(times, interval, k);
        }
        assert forall|j: int, k: int| 0 <= j < k < n implies times[j] < times[k] by {
            assert(times[j] == grid_point(first as int, j, interval as int));
            assert(times[k] == grid_point(first as int, k, interval as int));
            assert(j * interval < k * interval) by (nonlinear_arith)
                requires
                    j < k,
                    interval > 0,
            ;
        }
        lemma_on_grid_fixed(first as int, interval as int);
        assert(last == grid_point(first as int, n - 1, interval as int));
        lemma_step_on_grid(first as int, n - 1, interval as int);
        lemma_on_grid_fixed(last as int, interval as int);
        lemma_step_count(first as int, n - 1, interval as int);
        assert(first <= last) by {
            assert(0 <= (n - 1) * interval) by (nonlinear_arith)
                requires
                    n >= 1,
                    interval > 0,
            ;
        }
        assert(resampled(times, interval).len() == n);
        assert forall|k: int| 0 <= k < n implies resampled(times, interval)[k] == same[k] by {
            assert(times[k] == grid_point(first as int, k, interval as int));
            lemma_first_at_or_after(times, times[k], k);
        }
        assert(resampled(times, interval) =~= same);
    }
}

/// Resamples a series onto the grid of step `interval`.
///
/// The grid runs from the first timestamp rounded down to the last timestamp
/// rounded up. `interval` must not be zero, and the grid must end within 64
/// bits.
pub fn interpolate(times: &Vec<u64>, interval: u64) -> (data: Vec<GridSample>)
    requires
        interval > 0,
        fits_grid(times@, interval),
    ensures
        data@ == resampled(times@, interval),
        times@.len() > 0 && times@.first() <= times@.last() ==> data@.len() == (grid_end(
            times@,
            interval,
        ) - grid_start(times@, interval)) / (interval as int) + 1,
{
    let n: usize = times.len();
    let mut data: Vec<GridSample> = Vec::new();
    if n == 0 {
        return data;
    }
    let min: u64 = floor_to_grid(times[0], interval);
    let max: u64 = match ceil_to_grid(times[n - 1], interval) {
        Some(end) => end,
        None => 0,
    };
    let points: Vec<u64> = grid_times(min, max, interval);
    proof {
        lemma_grid_points(min, max, interval);
        lemma_grid_floor(times@.first() as int, interval as int);
        lemma_grid_ceil(times@.last() as int, interval as int);
    }
    let mut cursor: usize = 0;
    let mut k: usize = 0;
    while k < points.len()
        invariant
            n == times@.len(),
            n > 0,
            interval > 0,
            points@ == grid_points(min, max, interval),
            k <= points@.len(),
            cursor <= n,
            data@.len() == k,
            forall|j: int| 0 <= j < cursor && k < points@.len() ==> #[trigger] times@[j] < points@[k as int],
            forall|j: int|
                0 <= j < k ==> #[trigger] data@[j] == (GridSample {
                    time: points@[j],
                    source: source_at(times@, points@[j]),
                }),
        decreases points@.len() - k,
    {
        let point: u64 = points[k];
        while cursor < n && times[cursor] < point
            invariant
                n == times@.len(),
                cursor <= n,
                forall|j: int| 0 <= j < cursor ==> #[trigger] times@[j] < point,
            decreases n - cursor,
        {
            cursor = cursor + 1;
        }
        proof {
            lemma_first_at_or_after(times@, point, cursor as int);
        }
        let source = if cursor == n {
            Source::Sample { index: n - 1 }
        } else if times[cursor] == point || cursor == 0 {
            Source::Sample { index: cursor }
        } else {
            assert(times@[cursor - 1] < point);
            Source::Between {
                index: cursor,
                num: point - times[cursor - 1],
                den: times[cursor] - times[cursor - 1],
            }
        };
        data.push(GridSample { time: point, source });
        proof {
            lemma_grid_points(min, max, interval);
            if k + 1 < points@.len() {
                assert(points@[k as int] == grid_point(min as int, k as int, interval as int));
                assert(points@[k + 1] == grid_point(min as int, k + 1, interval as int));
                assert((k + 1) * interval == k * interval + interval) by (nonlinear_arith);
            }
        }
        k = k + 1;
    }
    proof {
        assert(data@ =~= resampled(times@, interval));
    }
    data
}

} // verus!
