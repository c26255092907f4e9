//! Pointwise sum of several series on one shared grid.
//!
//! Every series is resampled by itself. The shared grid covers the union of
//! the resampled ranges. At each of its points a series that has not begun
//! adds nothing, a series that has ended adds its final value, and a series
//! in progress adds its value at that very point: all resampled series lie
//! on the same multiples of the interval, so no point falls between two of
//! their samples.

use crate::grid::{
    grid_len, grid_point, grid_points, grid_times, lemma_grid_ceil, lemma_grid_ceil_ordered,
    lemma_grid_distance, lemma_grid_floor, lemma_grid_floor_ordered, lemma_grid_points,
    lemma_on_grid_fixed, lemma_step_on_grid, on_grid,
};
use crate::rates::ascending;
use crate::resample::{
    fits_grid, grid_end, grid_start, interpolate, is_grid_series, lemma_first_at_or_after,
    lemma_resample_idempotent, lemma_resampled_ends, resampled, source_at, GridSample, Source,
};
use vstd::arithmetic::div_mod::lemma_div_is_ordered;
use vstd::prelude::*;

verus! {

/// What one series adds to the sum at one grid point.
#[derive(Clone, Copy, Debug, PartialEq, Eq, Structural)]
pub enum Term {
    /// Nothing: the series has no samples, or has not begun yet.
    Zero,
    /// The value that the series has from the given source.
    Held(Source),
}

/// One point of a summed series: its time and one term for each series, in
/// the order of the series.
#[derive(Clone, Debug, PartialEq, Eq)]
pub struct SumSample {
    pub time: u64,
    pub terms: Vec<Term>,
}

/// The mathematical value of a `SumSample`.
pub struct SumPoint {
    pub time: u64,
    pub terms: Seq<Term>,
}

impl View for SumSample {
    type V = SumPoint;

    open spec fn view(&self) -> SumPoint {
        SumPoint { time: self.time, terms: self.terms@ }
    }
}

/// The timestamps of each series of a list.
pub open spec fn times_of(input: Seq<Vec<u64>>) -> Seq<Seq<u64>> {
    Seq::new(input.len(), |s: int| input[s]@)
}

/// The points of a summed series.
pub open spec fn points_of(data: Seq<SumSample>) -> Seq<SumPoint> {
    Seq::new(data.len(), |k: int| data[k]@)
}

/// The times of the points of a summed series.
pub open spec fn point_times(data: Seq<SumPoint>) -> Seq<u64> {
    Seq::new(data.len(), |k: int| data[k].time)
}

/// Whether resampling the series leaves any point.
pub open spec fn has_points(times: Seq<u64>, interval: u64) -> bool {
    times.len() > 0 && grid_start(times, interval) <= grid_end(times, interval)
}

/// What the series adds at `point`.
pub open spec fn term_at(times: Seq<u64>, interval: u64, point: u64) -> Term {
    if !has_points(times, interval) || point < grid_start(times, interval) {
        Term::Zero
    } else if point > grid_end(times, interval) {
        Term::Held(source_at(times, grid_end(times, interval)))
    } else {
        Term::Held(source_at(times, point))
    }
}

/// The range that the resampled series cover together: the least of their
/// first grid points and the greatest of their last ones. Series without
/// points do not count; there is no range where none has a point.
pub open spec fn span(input: Seq<Seq<u64>>, interval: u64) -> Option<(u64, u64)>
    decreases input.len(),
{
    if input.len() == 0 {
        None
    } else {
        let times = input.last();
        let before = span(input.drop_last(), interval);
        if !has_points(times, interval) {
            before
        } else {
            let start = grid_start(times, interval);
            let end = grid_end(times, interval);
            match before {
                None => Some((start, end)),
                Some((low, high)) => Some(
                    (
                        if start < low {
                            start
                        } else {
                            low
                        },
                        if end > high {
                            end
                        } else {
                            high
                        },
                    ),
                ),
            }
        }
    }
}

/// The terms of all series at `point`.
pub open spec fn terms_at(input: Seq<Seq<u64>>, interval: u64, point: u64) -> Seq<Term> {
    Seq::new(input.len(), |s: int| term_at(input[s], interval, point))
}

/// The sum of the series: one point at every multiple of `interval` in their
/// span, each with the terms of all series. Empty where no series has a point.
pub open spec fn summed(input: Seq<Seq<u64>>, interval: u64) -> Seq<SumPoint> {
    match span(input, interval) {
        None => Seq::empty(),
        Some((low, high)) => Seq::new(
            grid_len(low as int, high as int, interval as int),
            |k: int|
                SumPoint {
                    time: grid_point(low as int, k, interval as int) as u64,
                    terms: terms_at(
                        input,
                        interval,
                        grid_point(low as int, k, interval as int) as u64,
                    ),
                },
        ),
    }
}

/// Whether the grid of every series ends within 64 bits.
pub open spec fn all_fit_grid(input: Seq<Seq<u64>>, interval: u64) -> bool {
    forall|s: int| 0 <= s < input.len() ==> fits_grid(#[trigger] input[s], interval)
}

/// The grid bounds of a series with points are on the grid and in order.
pub proof fn lemma_series_bounds(times: Seq<u64>, interval: u64)
    requires
        interval > 0,
        fits_grid(times, interval),
        has_points(times, interval),
    ensures
        on_grid(grid_start(times, interval) as int, interval as int),
        on_grid(grid_end(times, interval) as int, interval as int),
        grid_start(times, interval) <= grid_end(times, interval),
        grid_start(times, interval) <= times.first(),
        times.last() <= grid_end(times, interval),
{
    lemma_grid_floor(times.first() as int, interval as int);
    lemma_grid_ceil(times.last() as int, interval as int);
}

/// The span is on the grid and in order; it contains the range of every
/// series that has points; and it is `None` exactly where no series has any.
pub proof fn lemma_span(input: Seq<Seq<u64>>, interval: u64)
    requires
        interval > 0,
        all_fit_grid(input, interval),
    ensures
        span(input, interval) is None <==> forall|s: int|
            0 <= s < input.len() ==> !has_points(#[trigger] input[s], interval),
        span(input, interval) matches Some((low, high)) ==> {
            &&& low <= high
            &&& on_grid(low as int, interval as int)
            &&& on_grid(high as int, interval as int)
            &&& forall|s: int|
                0 <= s < input.len() && has_points(#[trigger] input[s], interval) ==> low
                    <= grid_start(input[s], interval) && grid_end(input[s], interval) <= high
            &&& exists|s: int|
                0 <= s < input.len() && has_points(#[trigger] input[s], interval) && low
                    == grid_start(input[s], interval)
            &&& exists|s: int|
                0 <= s < input.len() && has_points(#[trigger] input[s], interval) && high
                    == grid_end(input[s], interval)
        },
    decreases input.len(),
{
    if input.len() > 0 {
        let rest = input.drop_last();
        let times = input.last();
        let last = input.len() - 1;
        assert(forall|s: int| 0 <= s < rest.len() ==> rest[s] == input[s]);
        assert(all_fit_grid(rest, interval)) by {
            assert forall|s: int| 0 <= s < rest.len() implies fits_grid(
                #[trigger] rest[s],
                interval,
            ) by {
                assert(fits_grid(input[s], interval));
            }
        }
        lemma_span(rest, interval);
        assert(input[last] == times);
        assert(fits_grid(input[last], interval));
        if has_points(times, interval) {
            lemma_series_bounds(times, interval);
            match span(rest, interval) {
                None => {
                    assert forall|s: int|
                        0 <= s < input.len() && has_points(
                            #[trigger] input[s],
                            interval,
                        ) implies s == last by {
                        if s < last {
                            assert(!has_points(rest[s], interval));
                        }
                    }
                },
                Some((low, high)) => {
                    let sl = choose|s: int|
                        0 <= s < rest.len() && has_points(#[trigger] rest[s], interval) && low
                            == grid_start(rest[s], interval);
                    let sh = choose|s: int|
                        0 <= s < rest.len() && has_points(#[trigger] rest[s], interval) && high
                            == grid_end(rest[s], interval);
                    assert(has_points(input[sl], interval));
                    assert(has_points(input[sh], interval));
                    assert forall|s: int|
                        0 <= s < input.len() && has_points(
                            #[trigger] input[s],
                            interval,
                        ) implies span(input, interval).unwrap().0 <= grid_start(
                        input[s],
                        interval,
                    ) && grid_end(input[s], interval) <= span(input, interval).unwrap().1 by {
                        if s < last {
                            assert(has_points(rest[s], interval));
                        }
                    }
                },
            }
        } else {
            match span(rest, interval) {
                None => {
                    assert forall|s: int| 0 <= s < input.len() implies !has_points(
                        #[trigger] input[s],
                        interval,
                    ) by {
                        if s < last {
                            assert(!has_points(rest[s], interval));
                        }
                    }
                },
                Some((low, high)) => {
                    let sl = choose|s: int|
                        0 <= s < rest.len() && has_points(#[trigger] rest[s], interval) && low
                            == grid_start(rest[s], interval);
                    let sh = choose|s: int|
                        0 <= s < rest.len() && has_points(#[trigger] rest[s], interval) && high
                            == grid_end(rest[s], interval);
                    assert(has_points(input[sl], interval));
                    assert(has_points(input[sh], interval));
                    assert forall|s: int|
                        0 <= s < input.len() && has_points(
                            #[trigger] input[s],
                            interval,
                        ) implies low <= grid_start(input[s], interval) && grid_end(
                        input[s],
                        interval,
                    ) <= high by {
                        if s < last {
                            assert(has_points(rest[s], interval));
                        }
                    }
                },
            }
        }
    }
}

/// No grid point falls between two points of a resampled series: a point on
/// the grid that lies within the range of the series is one of its points,
/// the one that many steps after its first.
pub proof fn lemma_never_between(times: Seq<u64>, interval: u64, point: u64)
    requires
        interval > 0,
        fits_grid(times, interval),
        has_points(times, interval),
        on_grid(point as int, interval as int),
        grid_start(times, interval) <= point <= grid_end(times, interval),
    ensures
        0 <= (point - grid_start(times, interval)) / (interval as int) < resampled(
            times,
            interval,
        ).len(),
        resampled(times, interval)[(point - grid_start(times, interval)) / (interval as int)]
            == (GridSample { time: point, source: source_at(times, point) }),
{
    lemma_resampled_ends(times, interval);
    let first = grid_start(times, interval);
    let last = grid_end(times, interval);
    let n = resampled(times, interval).len();
    let steps = (point - first) / (interval as int);
    lemma_grid_distance(first as int, point as int, interval as int);
    lemma_grid_distance(first as int, last as int, interval as int);
    lemma_div_is_ordered(point - first, last - first, interval as int);
    assert(resampled(times, interval)[steps].time == grid_point(
        first as int,
        steps,
        interval as int,
    ));
}

/// The sum of a single series is its resampling: the same points, each
/// with the one term that holds the source of the resampled point.
pub proof fn lemma_sum_single(times: Seq<u64>, interval: u64)
    requires
        interval > 0,
        fits_grid(times, interval),
    ensures
        summed(seq![times], interval) == Seq::new(
            resampled(times, interval).len(),
            |k: int|
                SumPoint {
                    time: resampled(times, interval)[k].time,
                    terms: seq![Term::Held(resampled(times, interval)[k].source)],
                },
        ),
{
    let input = seq![times];
    let single = Seq::new(
        resampled(times, interval).len(),
        |k: int|
            SumPoint {
                time: resampled(times, interval)[k].time,
                terms: seq![Term::Held(resampled(times, interval)[k].source)],
            },
    );
    assert(input.drop_last() =~= Seq::<Seq<u64>>::empty());
    assert(input.last() == times);
    assert(span(input.drop_last(), interval) is None);
    if times.len() > 0 {
        lemma_resampled_ends(times, interval);
    }
    if has_points(times, interval) {
        let low = grid_start(times, interval);
        let high = grid_end(times, interval);
        assert(span(input, interval) == Some((low, high)));
        lemma_grid_points(low, high, interval);
        assert(grid_points(low, high, interval).len() == single.len());
        assert forall|k: int| 0 <= k < single.len() implies summed(input, interval)[k]
            == single[k] by {
            let point = grid_point(low as int, k, interval as int);
            assert(low <= point <= high);
            assert(resampled(times, interval)[k].time == point);
            assert(terms_at(input, interval, point as u64) =~= seq![
                Term::Held(resampled(times, interval)[k].source),
            ]);
        }
        assert(summed(input, interval) =~= single);
    } else {
        assert(span(input, interval) is None);
        assert(summed(input, interval) =~= single);
    }
}

/// Whether no timestamp is below an earlier one.
pub open spec fn time_ordered(times: Seq<u64>) -> bool {
    forall|i: int, j: int| 0 <= i <= j < times.len() ==> times[i] <= times[j]
}

/// The sum of two series of which the first ends before the second begins.
///
/// The grid runs from the start of the first to the end of the second. The
/// first series adds its own value up to its end and its final value from
/// then on. The second adds nothing before its grid begins and its own value
/// from then on, which up to its first sample is the value of that sample.
pub proof fn lemma_sum_disjoint(first: Seq<u64>, second: Seq<u64>, interval: u64)
    requires
        interval > 0,
        0 < first.len() <= usize::MAX,
        0 < second.len() <= usize::MAX,
        time_ordered(first),
        time_ordered(second),
        first.last() < second.first(),
        fits_grid(first, interval),
        fits_grid(second, interval),
    ensures
        summed(seq![first, second], interval) == Seq::new(
            grid_len(
                grid_start(first, interval) as int,
                grid_end(second, interval) as int,
                interval as int,
            ),
            |k: int|
                {
                    let point = grid_point(
                        grid_start(first, interval) as int,
                        k,
                        interval as int,
                    ) as u64;
                    SumPoint {
                        time: point,
                        terms: seq![
                            Term::Held(
                                source_at(
                                    first,
                                    if point <= grid_end(first, interval) {
                                        point
                                    } else {
                                        grid_end(first, interval)
                                    },
                                ),
                            ),
                            if point < grid_start(second, interval) {
                                Term::Zero
                            } else {
                                Term::Held(source_at(second, point))
                            },
                        ],
                    }
                },
        ),
        forall|point: u64|
            point > first.last() ==> #[trigger] source_at(first, point) == (Source::Sample {
                index: (first.len() - 1) as usize,
            }),
        forall|point: u64|
            point <= second.first() ==> #[trigger] source_at(second, point) == (Source::Sample {
                index: 0,
            }),
{
    let input = seq![first, second];
    let a0 = grid_start(first, interval);
    let a1 = grid_end(first, interval);
    let b0 = grid_start(second, interval);
    let b1 = grid_end(second, interval);
    lemma_grid_floor(first.first() as int, interval as int);
    lemma_grid_ceil(first.last() as int, interval as int);
    lemma_grid_floor(second.first() as int, interval as int);
    lemma_grid_ceil(second.last() as int, interval as int);
    assert(first.first() <= first.last());
    assert(second.first() <= second.last());
    lemma_grid_floor_ordered(first.first() as int, second.first() as int, interval as int);
    lemma_grid_ceil_ordered(first.last() as int, second.last() as int, interval as int);
    assert(has_points(first, interval));
    assert(has_points(second, interval));
    assert(input.drop_last() =~= seq![first]);
    assert(input.drop_last().drop_last() =~= Seq::<Seq<u64>>::empty());
    assert(span(input.drop_last().drop_last(), interval) is None);
    assert(input.drop_last().last() == first);
    assert(span(input.drop_last(), interval) == Some((a0, a1)));
    assert(input.last() == second);
    assert(span(input, interval) == Some((a0, b1)));
    let expected = Seq::new(
        grid_len(a0 as int, b1 as int, interval as int),
        |k: int|
            {
                let point = grid_point(a0 as int, k, interval as int) as u64;
                SumPoint {
                    time: point,
                    terms: seq![
                        Term::Held(source_at(first, if point <= a1 {
                            point
                        } else {
                            a1
                        })),
                        if point < b0 {
                            Term::Zero
                        } else {
                            Term::Held(source_at(second, point))
                        },
                    ],
                }
            },
    );
    lemma_grid_points(a0, b1, interval);
    assert(grid_points(a0, b1, interval).len() == expected.len());
    assert forall|k: int| 0 <= k < expected.len() implies summed(input, interval)[k]
        == expected[k] by {
        let at = grid_point(a0 as int, k, interval as int);
        assert(a0 <= at <= b1);
        assert(terms_at(input, interval, at as u64) =~= expected[k].terms);
    }
    assert(summed(input, interval) =~= expected);
    assert forall|point: u64| point > first.last() implies #[trigger] source_at(first, point)
        == (Source::Sample { index: (first.len() - 1) as usize }) by {
        lemma_first_at_or_after(first, point, first.len() as int);
    }
    assert forall|point: u64| point <= second.first() implies #[trigger] source_at(second, point)
        == (Source::Sample { index: 0 }) by {
        lemma_first_at_or_after(second, point, 0);
    }
}

/// The times of a summed series lie on the grid, one step apart, so the
/// series can be resampled, summed and differenced again.
pub proof fn lemma_summed_times(input: Seq<Seq<u64>>, interval: u64)
    requires
        interval > 0,
        all_fit_grid(input, interval),
    ensures
        fits_grid(point_times(summed(input, interval)), interval),
        ascending(point_times(summed(input, interval))),
        forall|k: int|
            0 <= k < summed(input, interval).len() ==> on_grid(
                (#[trigger] point_times(summed(input, interval))[k]) as int,
                interval as int,
            ),
        forall|k: int|
            0 < k < summed(input, interval).len() ==> (#[trigger] point_times(
                summed(input, interval),
            )[k]) == point_times(summed(input, interval))[k - 1] + interval,
{
    lemma_span(input, interval);
    let times = point_times(summed(input, interval));
    match span(input, interval) {
        None => {},
        Some((low, high)) => {
            lemma_grid_points(low, high, interval);
            assert(grid_points(low, high, interval).len() == times.len());
            assert forall|k: int| 0 <= k < times.len() implies #[trigger] times[k] == grid_point(
                low as int,
                k,
                interval as int,
            ) && on_grid(times[k] as int, interval as int) by {
                assert(low <= grid_point(low as int, k, interval as int) <= high);
                lemma_step_on_grid(low as int, k, interval as int);
            }
            assert forall|k: int| 0 < k < times.len() implies #[trigger] times[k] == times[k - 1]
                + interval by {
                assert(times[k - 1] == grid_point(low as int, k - 1, interval as int));
                assert(k * interval == (k - 1) * interval + interval) by (nonlinear_arith);
            }
            if times.len() > 0 {
                assert(on_grid(times[times.len() - 1] as int, interval as int));
                lemma_on_grid_fixed(times.last() as int, interval as int);
            }
        },
    }
}

/// Summing a summed series by itself changes nothing: the same times come
/// back, and each point takes the value of the point at its own index.
pub proof fn lemma_sum_again(input: Seq<Seq<u64>>, interval: u64)
    requires
        interval > 0,
        all_fit_grid(input, interval),
        summed(input, interval).len() <= usize::MAX,
    ensures
        fits_grid(point_times(summed(input, interval)), interval),
        summed(seq![point_times(summed(input, interval))], interval) == Seq::new(
            summed(input, interval).len(),
            |k: int|
                SumPoint {
                    time: summed(input, interval)[k].time,
                    terms: seq![Term::Held(Source::Sample { index: k as usize })],
                },
        ),
{
    let times = point_times(summed(input, interval));
    lemma_summed_times(input, interval);
    assert(is_grid_series(times, interval)) by {
        if times.len() > 0 {
            assert(on_grid(times[0] as int, interval as int));
        }
    }
    lemma_resample_idempotent(times, interval);
    lemma_sum_single(times, interval);
    assert(summed(seq![times], interval) =~= Seq::new(
        summed(input, interval).len(),
        |k: int|
            SumPoint {
                time: summed(input, interval)[k].time,
                terms: seq![Term::Held(Source::Sample { index: k as usize })],
            },
    ));
}

/// The times of the points of a summed series.
pub fn sample_times(data: &Vec<SumSample>) -> (times: Vec<u64>)
    ensures
        times@ == point_times(points_of(data@)),
{
    let mut times: Vec<u64> = Vec::new();
    let mut k: usize = 0;
    while k < data.len()
        invariant
            k <= data@.len(),
            times@.len() == k,
            forall|i: int| 0 <= i < k ==> #[trigger] times@[i] == data@[i].time,
        decreases data@.len() - k,
    {
        times.push(data[k].time);
        k = k + 1;
    }
    proof {
        assert(times@ =~= point_times(points_of(data@)));
    }
    times
}

/// What a series adds at a point on the grid, read off its resampled form.
fn term_from(
    Ghost(times): Ghost<Seq<u64>>,
    series: &Vec<GridSample>,
    interval: u64,
    point: u64,
) -> (term: Term)
    requires
        interval > 0,
        fits_grid(times, interval),
        series@ == resampled(times, interval),
        on_grid(point as int, interval as int),
    ensures
        term == term_at(times, interval, point),
{
    let n: usize = series.len();
    if n == 0 {
        proof {
            if times.len() > 0 {
                lemma_resampled_ends(times, interval);
            }
        }
        return Term::Zero;
    }
    proof {
        lemma_resampled_ends(times, interval);
    }
    let first: u64 = series[0].time;
    let last: u64 = series[n - 1].time;
    if point < first {
        Term::Zero
    } else if point > last {
        Term::Held(series[n - 1].source)
    } else {
        proof {
            lemma_never_between(times, interval, point);
        }
        let steps: u64 = (point - first) / interval;
        Term::Held(series[steps as usize].source)
    }
}

/// Sums the series on the grid of step `interval`.
///
/// `interval` must not be zero, and the grid of every series must end within
/// 64 bits.
pub fn sum_bytes(input: &Vec<Vec<u64>>, interval: u64) -> (data: Vec<SumSample>)
    requires
        interval > 0,
        all_fit_grid(times_of(input@), interval),
    ensures
        points_of(data@) == summed(times_of(input@), interval),
        ascending(point_times(points_of(data@))),
{
    let count: usize = input.len();
    let ghost all = times_of(input@);
    let mut series: Vec<Vec<GridSample>> = Vec::new();
    let mut bounds: Option<(u64, u64)> = None;
    let mut s: usize = 0;
    while s < count
        invariant
            interval > 0,
            count == input@.len(),
            all == times_of(input@),
            all_fit_grid(all, interval),
            s <= count,
            series@.len() == s,
            forall|j: int| 0 <= j < s ==> (#[trigger] series@[j])@ == resampled(all[j], interval),
            bounds == span(all.take(s as int), interval),
        decreases count - s,
    {
        proof {
            assert(all[s as int] == input@[s as int]@);
            assert(fits_grid(all[s as int], interval));
        }
        let part: Vec<GridSample> = interpolate(&input[s], interval);
        let n: usize = part.len();
        proof {
            assert(all.take(s + 1).drop_last() =~= all.take(s as int));
            assert(all.take(s + 1).last() == all[s as int]);
            if all[s as int].len() > 0 {
                lemma_resampled_ends(all[s as int], interval);
            }
        }
        if n > 0 {
            let start: u64 = part[0].time;
            let end: u64 = part[n - 1].time;
            bounds = match bounds {
                None => Some((start, end)),
                Some((low, high)) => Some(
                    (
                        if start < low {
                            start
                        } else {
                            low
                        },
                        if end > high {
                            end
                        } else {
                            high
                        },
                    ),
                ),
            };
        }
        series.push(part);
        s = s + 1;
    }
    let mut data: Vec<SumSample> = Vec::new();
    proof {
        assert(all.take(count as int) =~= all);
        lemma_span(all, interval);
        lemma_summed_times(all, interval);
    }
    match bounds {
        None => {
            proof {
                assert(points_of(data@) =~= summed(all, interval));
            }
        },
        Some((low, high)) => {
            let points: Vec<u64> = grid_times(low, high, interval);
            let mut k: usize = 0;
            while k < points.len()
                invariant
                    interval > 0,
                    count == input@.len(),
                    all == times_of(input@),
                    all_fit_grid(all, interval),
                    series@.len() == count,
                    forall|j: int|
                        0 <= j < count ==> (#[trigger] series@[j])@ == resampled(all[j], interval),
                    on_grid(low as int, interval as int),
                    points@ == grid_points(low, high, interval),
                    k <= points@.len(),
                    data@.len() == k,
                    forall|i: int|
                        0 <= i < k ==> (#[trigger] data@[i])@ == (SumPoint {
                            time: points@[i],
                            terms: terms_at(all, interval, points@[i]),
                        }),
                decreases points@.len() - k,
            {
                let point: u64 = points[k];
                proof {
                    lemma_grid_points(low, high, interval);
                    assert(point == grid_point(low as int, k as int, interval as int));
                    lemma_step_on_grid(low as int, k as int, interval as int);
                }
                let mut terms: Vec<Term> = Vec::new();
                let mut j: usize = 0;
                while j < count
                    invariant
                        interval > 0,
                        count == input@.len(),
                        all == times_of(input@),
                        all_fit_grid(all, interval),
                        series@.len() == count,
                        forall|j: int|
                            0 <= j < count ==> (#[trigger] series@[j])@ == resampled(
                                all[j],
                                interval,
                            ),
                        on_grid(point as int, interval as int),
                        j <= count,
                        terms@.len() == j,
                        forall|i: int|
                            0 <= i < j ==> #[trigger] terms@[i] == term_at(all[i], interval, point),
                    decreases count - j,
                {
                    proof {
                        assert(fits_grid(all[j as int], interval));
                    }
                    let term: Term = term_from(Ghost(all[j as int]), &series[j], interval, point);
                    terms.push(term);
                    j = j + 1;
                }
                proof {
                    assert(terms@ =~= terms_at(all, interval, point));
                }
                data.push(SumSample { time: point, terms });
                k = k + 1;
            }
            proof {
                lemma_grid_points(low, high, interval);
                assert(points_of(data@) =~= summed(all, interval));
            }
        },
    }
    data
}

} // verus!
