//! From a cumulative series to a series of rates.
//!
//! The rate at a sample is the growth since the sample before it, over the
//! time between the two. One point of zero rate stands just before the first
//! sample and one just after the last, so that the rate is known to be zero
//! right outside the measured range.

use vstd::prelude::*;

verus! {

/// The rate at one point of a rate series.
#[derive(Clone, Copy, Debug, PartialEq, Eq, Structural)]
pub enum Rate {
    /// No throughput.
    Zero,
    /// The growth from the sample at `index - 1` to the sample at `index`,
    /// which are `elapsed` microseconds apart. With the growth in bytes, the
    /// rate in megabits per second is eight times the growth, divided by a
    /// million and by the elapsed seconds.
    Slope { index: usize, elapsed: u64 },
}

/// One point of a rate series.
#[derive(Clone, Copy, Debug, PartialEq, Eq, Structural)]
pub struct RateSample {
    pub time: u64,
    pub rate: Rate,
}

/// Whether each timestamp is above the one before it.
pub open spec fn ascending(times: Seq<u64>) -> bool {
    forall|i: int| 0 < i < times.len() ==> times[i - 1] < #[trigger] times[i]
}

/// Whether a cumulative series can be turned into rates: its timestamps
/// ascend, and the last one leaves room for one more microsecond.
pub open spec fn rateable(times: Seq<u64>) -> bool {
    &&& ascending(times)
    &&& times.len() > 0 ==> times.last() < u64::MAX
}

/// The rate point of the sample at index `i`: the first sample has nothing
/// before it to grow from.
pub open spec fn rate_at(times: Seq<u64>, i: int) -> RateSample {
    RateSample {
        time: times[i],
        rate: if i == 0 {
            Rate::Zero
        } else {
            Rate::Slope { index: i as usize, elapsed: (times[i] - times[i - 1]) as u64 }
        },
    }
}

/// The zero point one microsecond before the first sample; none where the
/// first sample is at time zero.
pub open spec fn lead_in(times: Seq<u64>) -> Seq<RateSample> {
    if times.first() > 0 {
        seq![RateSample { time: (times.first() - 1) as u64, rate: Rate::Zero }]
    } else {
        Seq::empty()
    }
}

/// The zero point one microsecond after the last sample.
pub open spec fn lead_out(times: Seq<u64>) -> Seq<RateSample> {
    seq![RateSample { time: (times.last() + 1) as u64, rate: Rate::Zero }]
}

/// The rate series of a cumulative series: empty for an empty one, else the
/// rate points of all samples between the two zero points.
pub open spec fn rates(times: Seq<u64>) -> Seq<RateSample> {
    if times.len() == 0 {
        Seq::empty()
    } else {
        lead_in(times) + Seq::new(times.len(), |i: int| rate_at(times, i)) + lead_out(times)
    }
}

/// The growth that a rate point accounts for when the samples have the
/// given exact values.
pub open spec fn growth(rate: Rate, values: Seq<int>) -> int {
    match rate {
        Rate::Zero => 0,
        Rate::Slope { index, elapsed } => values[index as int] - values[index - 1],
    }
}

/// The growth that all points of a rate series account for together.
pub open spec fn total_growth(points: Seq<RateSample>, values: Seq<int>) -> int
    decreases points.len(),
{
    if points.len() == 0 {
        0
    } else {
        total_growth(points.drop_last(), values) + growth(points.last().rate, values)
    }
}

/// The growth of two rate series in a row is the sum of their growths.
pub proof fn lemma_growth_adds(front: Seq<RateSample>, back: Seq<RateSample>, values: Seq<int>)
    ensures
        total_growth(front + back, values) == total_growth(front, values) + total_growth(
            back,
            values,
        ),
    decreases back.len(),
{
    if back.len() == 0 {
        assert(front + back =~= front);
    } else {
        assert((front + back).drop_last() =~= front + back.drop_last());
        assert((front + back).last() == back.last());
        lemma_growth_adds(front, back.drop_last(), values);
    }
}

/// The rate points of the first `count` samples account for the growth from
/// the first of them to the last.
proof fn lemma_growth_upto(times: Seq<u64>, values: Seq<int>, count: int)
    requires
        0 < count <= times.len() <= usize::MAX,
        values.len() == times.len(),
    ensures
        total_growth(Seq::new(count as nat, |i: int| rate_at(times, i)), values) == values[count
            - 1] - values[0],
    decreases count,
{
    let upto = Seq::new(count as nat, |i: int| rate_at(times, i));
    assert(upto.last() == rate_at(times, count - 1));
    if count == 1 {
        assert(upto.drop_last() =~= Seq::<RateSample>::empty());
        assert(total_growth(upto.drop_last(), values) == 0);
    } else {
        assert(upto.drop_last() =~= Seq::new((count - 1) as nat, |i: int| rate_at(times, i)));
        lemma_growth_upto(times, values, count - 1);
    }
}

/// The rate series keeps what the cumulative series grew by.
///
/// After the leading zero point, if any, the points stand at the times of
/// the samples, in order. Each but the first names its sample and the one
/// before it, and the time between the two, which is not zero: dividing by
/// it can be undone. In exact arithmetic the growths that the points account
/// for add up to the growth from the first sample to the last.
pub proof fn lemma_rates_keep_growth(times: Seq<u64>, values: Seq<int>)
    requires
        0 < times.len() <= usize::MAX,
        values.len() == times.len(),
        ascending(times),
    ensures
        rates(times).len() == lead_in(times).len() + times.len() + 1,
        forall|i: int|
            0 <= i < times.len() ==> (#[trigger] rates(times)[lead_in(times).len() + i]).time
                == times[i],
        forall|i: int|
            0 < i < times.len() ==> (#[trigger] rates(times)[lead_in(times).len() + i]).rate == (
            Rate::Slope { index: i as usize, elapsed: (times[i] - times[i - 1]) as u64 })
                && times[i] - times[i - 1] > 0,
        total_growth(rates(times), values) == values.last() - values.first(),
{
    let body = Seq::new(times.len(), |i: int| rate_at(times, i));
    assert forall|i: int| 0 <= i < times.len() implies (#[trigger] rates(times)[lead_in(
        times,
    ).len() + i]) == rate_at(times, i) by {
        assert((lead_in(times) + body)[lead_in(times).len() + i] == body[i]);
    }
    assert forall|i: int| 0 < i < times.len() implies (#[trigger] rates(times)[lead_in(
        times,
    ).len() + i]).rate == (Rate::Slope {
        index: i as usize,
        elapsed: (times[i] - times[i - 1]) as u64,
    }) && times[i] - times[i - 1] > 0 by {
        assert(times[i - 1] < times[i]);
        assert(rates(times)[lead_in(times).len() + i] == rate_at(times, i));
    }
    lemma_growth_adds(lead_in(times) + body, lead_out(times), values);
    lemma_growth_adds(lead_in(times), body, values);
    lemma_growth_upto(times, values, times.len() as int);
    assert(lead_out(times).drop_last() =~= Seq::<RateSample>::empty());
    assert(total_growth(lead_out(times).drop_last(), values) == 0);
    assert(total_growth(lead_out(times), values) == 0);
    if times.first() > 0 {
        assert(lead_in(times).drop_last() =~= Seq::<RateSample>::empty());
        assert(total_growth(lead_in(times).drop_last(), values) == 0);
    }
    assert(total_growth(lead_in(times), values) == 0);
}

/// Says whether a cumulative series can be turned into rates.
pub fn can_rate(times: &Vec<u64>) -> (yes: bool)
    ensures
        yes == rateable(times@),
{
    let n: usize = times.len();
    if n == 0 {
        return true;
    }
    if times[n - 1] == u64::MAX {
        return false;
    }
    let mut i: usize = 1;
    while i < n
        invariant
            n == times@.len(),
            1 <= i <= n,
            forall|j: int| 0 < j < i ==> times@[j - 1] < #[trigger] times@[j],
        decreases n - i,
    {
        if times[i - 1] >= times[i] {
            return false;
        }
        i = i + 1;
    }
    true
}

/// Turns a cumulative series into its rate series.
///
/// The timestamps must ascend strictly, and the last one must leave room for
/// one more microsecond.
pub fn to_rates(times: &Vec<u64>) -> (result: Vec<RateSample>)
    requires
        rateable(times@),
    ensures
        result@ == rates(times@),
        times@.len() == 0 ==> result@.len() == 0,
        times@.len() > 0 && times@.first() > 0 ==> result@.len() == times@.len() + 2,
        times@.len() > 0 && times@.first() == 0 ==> result@.len() == times@.len() + 1,
{
    let n: usize = times.len();
    let mut result: Vec<RateSample> = Vec::new();
    if n == 0 {
        return result;
    }
    if times[0] > 0 {
        result.push(RateSample { time: times[0] - 1, rate: Rate::Zero });
    }
    let ghost lead = result@;
    assert(lead =~= lead_in(times@));
    let mut i: usize = 0;
    while i < n
        invariant
            n == times@.len(),
            ascending(times@),
            i <= n,
            result@.len() == lead.len() + i,
            forall|j: int| 0 <= j < lead.len() ==> result@[j] == lead[j],
            forall|j: int| 0 <= j < i ==> #[trigger] result@[lead.len() + j] == rate_at(times@, j),
        decreases n - i,
    {
        let rate = if i > 0 {
            Rate::Slope { index: i, elapsed: times[i] - times[i - 1] }
        } else {
            Rate::Zero
        };
        result.push(RateSample { time: times[i], rate });
        i = i + 1;
    }
    result.push(RateSample { time: times[n - 1] + 1, rate: Rate::Zero });
    proof {
        let body = Seq::new(times@.len(), |i: int| rate_at(times@, i));
        assert forall|j: int| 0 <= j < result@.len() implies result@[j] == rates(times@)[j] by {
            if j < lead.len() {
            } else if j < lead.len() + n {
                assert(result@[lead.len() + (j - lead.len())] == rate_at(times@, j - lead.len()));
            } else {
            }
        }
        assert(result@ =~= rates(times@));
    }
    result
}

} // verus!
