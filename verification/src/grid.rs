//! Arithmetic of a uniform time grid: the multiples of a sampling interval.

use vstd::arithmetic::div_mod::{
    lemma_fundamental_div_mod, lemma_fundamental_div_mod_converse, lemma_mod_multiples_basic,
};
use vstd::arithmetic::mul::{lemma_mul_inequality, lemma_mul_is_distributive_add_other_way};
use vstd::prelude::*;

verus! {

/// The largest multiple of `interval` that is not above `time`.
pub open spec fn grid_floor(time: int, interval: int) -> int {
    (time / interval) * interval
}

/// The smallest multiple of `interval` that is not below `time`.
pub open spec fn grid_ceil(time: int, interval: int) -> int {
    if time % interval == 0 {
        time
    } else {
        (time / interval + 1) * interval
    }
}

/// Whether `time` lies on the grid of step `interval`.
pub open spec fn on_grid(time: int, interval: int) -> bool {
    time % interval == 0
}

/// The number of points `min, min + interval, ...` that do not exceed `max`.
pub open spec fn grid_len(min: int, max: int, interval: int) -> nat {
    if min <= max {
        ((max - min) / interval + 1) as nat
    } else {
        0
    }
}

/// The time `k` steps above `min`.
pub open spec fn grid_point(min: int, k: int, interval: int) -> int {
    min + k * interval
}

/// The points `min, min + interval, ...` up to and including the last one
/// that does not exceed `max`.
pub open spec fn grid_points(min: u64, max: u64, interval: u64) -> Seq<u64> {
    Seq::new(
        grid_len(min as int, max as int, interval as int),
        |k: int| grid_point(min as int, k, interval as int) as u64,
    )
}

/// `grid_floor` is on the grid, at most `time`, and less than one step below it.
pub proof fn lemma_grid_floor(time: int, interval: int)
    requires
        0 <= time,
        0 < interval,
    ensures
        on_grid(grid_floor(time, interval), interval),
        0 <= grid_floor(time, interval) <= time < grid_floor(time, interval) + interval,
{
    lemma_fundamental_div_mod(time, interval);
    lemma_mod_multiples_basic(time / interval, interval);
    assert(0 <= time % interval < interval);
    assert(interval * (time / interval) == (time / interval) * interval) by (nonlinear_arith);
}

/// `grid_ceil` is on the grid, at least `time`, and less than one step above it.
pub proof fn lemma_grid_ceil(time: int, interval: int)
    requires
        0 <= time,
        0 < interval,
    ensures
        on_grid(grid_ceil(time, interval), interval),
        time <= grid_ceil(time, interval) < time + interval,
        grid_floor(time, interval) <= grid_ceil(time, interval),
{
    lemma_grid_floor(time, interval);
    if time % interval != 0 {
        lemma_fundamental_div_mod(time, interval);
        lemma_mod_multiples_basic(time / interval + 1, interval);
        lemma_mul_is_distributive_add_other_way(interval, time / interval, 1);
        assert(interval * (time / interval) == (time / interval) * interval) by (nonlinear_arith);
    }
}

/// A time on the grid is its own floor and its own ceiling.
pub proof fn lemma_on_grid_fixed(time: int, interval: int)
    requires
        0 <= time,
        0 < interval,
        on_grid(time, interval),
    ensures
        grid_floor(time, interval) == time,
        grid_ceil(time, interval) == time,
{
    lemma_fundamental_div_mod(time, interval);
    assert(interval * (time / interval) == (time / interval) * interval) by (nonlinear_arith);
}

/// Every point that is `k` steps above a grid time is on the grid.
pub proof fn lemma_step_on_grid(min: int, k: int, interval: int)
    requires
        0 < interval,
        on_grid(min, interval),
    ensures
        on_grid(min + k * interval, interval),
{
    vstd::arithmetic::div_mod::lemma_mod_multiples_vanish(k, min, interval);
    assert(interval * k + min == min + k * interval) by (nonlinear_arith);
}

/// The step count between two times that are a whole number of steps apart.
pub proof fn lemma_step_count(min: int, k: int, interval: int)
    requires
        0 < interval,
        0 <= k,
    ensures
        (min + k * interval - min) / interval == k,
        (k * interval) / interval == k,
{
    lemma_fundamental_div_mod_converse(k * interval, interval, k, 0);
}

/// Two grid times are a whole number of steps apart.
pub proof fn lemma_grid_distance(min: int, max: int, interval: int)
    requires
        0 < interval,
        min <= max,
        on_grid(min, interval),
        on_grid(max, interval),
    ensures
        min + ((max - min) / interval) * interval == max,
        0 <= (max - min) / interval,
{
    lemma_fundamental_div_mod(max, interval);
    lemma_fundamental_div_mod(min, interval);
    let a = min / interval;
    let b = max / interval;
    assert(max - min == (b - a) * interval) by (nonlinear_arith)
        requires
            max == interval * b,
            min == interval * a,
    ;
    assert(b >= a) by (nonlinear_arith)
        requires
            (b - a) * interval >= 0,
            interval > 0,
    ;
    lemma_fundamental_div_mod_converse(max - min, interval, b - a, 0);
}

/// Rounding down keeps the order of times.
pub proof fn lemma_grid_floor_ordered(early: int, late: int, interval: int)
    requires
        0 <= early <= late,
        0 < interval,
    ensures
        grid_floor(early, interval) <= grid_floor(late, interval),
{
    vstd::arithmetic::div_mod::lemma_div_is_ordered(early, late, interval);
    lemma_mul_inequality(early / interval, late / interval, interval);
}

/// Rounding up keeps the order of times.
pub proof fn lemma_grid_ceil_ordered(early: int, late: int, interval: int)
    requires
        0 <= early <= late,
        0 < interval,
    ensures
        grid_ceil(early, interval) <= grid_ceil(late, interval),
{
    lemma_grid_ceil(early, interval);
    lemma_grid_ceil(late, interval);
    let low = grid_ceil(late, interval);
    let high = grid_ceil(early, interval);
    if low < high {
        lemma_grid_distance(low, high, interval);
        let k = (high - low) / interval;
        assert(k != 0) by {
            if k == 0 {
                assert(k * interval == 0) by (nonlinear_arith)
                    requires
                        k == 0,
                ;
            }
        }
        assert(k * interval >= interval) by (nonlinear_arith)
            requires
                k >= 1,
                interval > 0,
        ;
    }
}

/// The points of a grid in terms of its bounds: each lies between `min` and
/// `max`, and the last one is less than one step below `max`.
pub proof fn lemma_grid_points(min: u64, max: u64, interval: u64)
    requires
        0 < interval,
    ensures
        forall|k: int|
            0 <= k < grid_points(min, max, interval).len() ==> min <= #[trigger] grid_point(
                min as int,
                k,
                interval as int,
            ) <= max,
        forall|k: int|
            0 <= k < grid_points(min, max, interval).len() ==> #[trigger] grid_points(
                min,
                max,
                interval,
            )[k] == grid_point(min as int, k, interval as int),
        min <= max ==> max < min + grid_points(min, max, interval).len() * interval,
{
    let n = grid_len(min as int, max as int, interval as int);
    if min <= max {
        let d = max - min;
        lemma_fundamental_div_mod(d, interval as int);
        assert(interval * (d / interval as int) == (d / interval as int) * interval)
            by (nonlinear_arith);
        assert(0 <= d / interval as int) by {
            vstd::arithmetic::div_mod::lemma_div_pos_is_pos(d, interval as int);
        }
        assert(grid_points(min, max, interval).len() == n);
        assert forall|k: int| 0 <= k < n implies min <= #[trigger] grid_point(
            min as int,
            k,
            interval as int,
        ) <= max by {
            lemma_mul_inequality(k, d / interval as int, interval as int);
            assert(0 <= k * interval) by (nonlinear_arith)
                requires
                    0 <= k,
                    0 < interval,
            ;
        }
        assert((d / interval as int + 1) * interval == (d / interval as int) * interval + interval)
            by (nonlinear_arith);
    } else {
        assert(grid_points(min, max, interval).len() == 0);
    }
}

/// Rounds `time` down to the grid of step `interval`.
pub fn floor_to_grid(time: u64, interval: u64) -> (start: u64)
    requires
        interval > 0,
    ensures
        start == grid_floor(time as int, interval as int),
{
    proof {
        lemma_grid_floor(time as int, interval as int);
    }
    time / interval * interval
}

/// Rounds `time` up to the grid of step `interval`, where the result fits
/// in 64 bits.
pub fn ceil_to_grid(time: u64, interval: u64) -> (end: Option<u64>)
    requires
        interval > 0,
    ensures
        end == if grid_ceil(time as int, interval as int) <= u64::MAX {
            Some(grid_ceil(time as int, interval as int) as u64)
        } else {
            None
        },
{
    proof {
        lemma_grid_floor(time as int, interval as int);
        lemma_grid_ceil(time as int, interval as int);
        lemma_mul_is_distributive_add_other_way(interval as int, time as int / interval as int, 1);
    }
    if time % interval == 0 {
        Some(time)
    } else {
        let floor: u64 = time / interval * interval;
        if floor <= u64::MAX - interval {
            Some(floor + interval)
        } else {
            None
        }
    }
}

/// The grid points from `min` to `max`, one every `interval`.
pub fn grid_times(min: u64, max: u64, interval: u64) -> (points: Vec<u64>)
    requires
        interval > 0,
    ensures
        points@ == grid_points(min, max, interval),
{
    let mut points: Vec<u64> = Vec::new();
    if min > max {
        return points;
    }
    let steps: u64 = (max - min) / interval;
    let mut k: u64 = 0;
    let mut point: u64 = min;
    points.push(point);
    proof {
        lemma_grid_points(min, max, interval);
    }
    while k < steps
        invariant
            interval > 0,
            min <= max,
            steps == (max - min) / (interval as int),
            k <= steps,
            point == min + k * interval,
            points@.len() == k + 1,
            forall|j: int|
                0 <= j <= k ==> #[trigger] points@[j] == grid_point(min as int, j, interval as int),
            grid_points(min, max, interval).len() == steps + 1,
        decreases steps - k,
    {
        proof {
            lemma_grid_points(min, max, interval);
            assert(grid_point(min as int, k + 1, interval as int) <= max);
        }
        assert((k + 1) * interval == k * interval + interval) by (nonlinear_arith);
        k = k + 1;
        point = point + interval;
        points.push(point);
    }
    proof {
        lemma_grid_points(min, max, interval);
        assert(points@ =~= grid_points(min, max, interval));
    }
    points
}

} // verus!
