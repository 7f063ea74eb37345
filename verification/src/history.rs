//! A minute of timestamped samples, independent of how often they are taken.

use crate::accuracy::{
    is_close, is_on_the_line, lemma_difference_is_close, lemma_on_the_line, lemma_small_integer,
    PRECISION,
};
use crate::arithmetic::{
    lemma_difference_above, lemma_difference_below, lemma_difference_not_positive,
    lemma_differences_in_order, lemma_integers, lemma_no_difference, NO_NUMBER,
};
use crate::double::{lemma_order_is_numeric, Double, FINEST, HIDDEN};
use crate::magnitudes::lemma_minute_is_kept;
use crate::metrics::Snapshot;
use std::collections::VecDeque;
use vstd::arithmetic::power2::pow2;
use vstd::math::{abs, max, min};
use vstd::prelude::*;

verus! {

/// The seconds that are shown.
pub const WINDOW_SECONDS: u128 = 60;

/// A sample every half second needs 121 places, and one more for the sample just
/// before the minute where the interval changes.
pub const MAX_SAMPLES: usize = 122;

/// A sample and when it was taken, in seconds.
#[derive(Debug)]
pub struct Observation {
    pub at: Double,
    pub snapshot: Snapshot,
}

/// Where the minute before a time begins.
pub open spec fn window_start(at: Double) -> Double {
    at.difference(Double::integer(WINDOW_SECONDS as nat))
}

/// Observations without those at the front that have another one behind them at
/// or before the start of the window.
pub open spec fn without_expired(samples: Seq<Observation>, start: Double) -> Seq<Observation>
    decreases samples.len(),
{
    if samples.len() > 1 && samples[1].at.at_most(start) {
        without_expired(samples.skip(1), start)
    } else {
        samples
    }
}

/// The last observations, no more than are kept.
pub open spec fn newest(samples: Seq<Observation>) -> Seq<Observation> {
    if samples.len() > MAX_SAMPLES {
        samples.skip(samples.len() - MAX_SAMPLES)
    } else {
        samples
    }
}

/// Whether an observation is taken up: its time is a number, and not before that
/// of the latest.
pub open spec fn accepted(samples: Seq<Observation>, at: Double) -> bool {
    at.finite() && !(samples.len() > 0 && at.less(samples.last().at))
}

/// Observations with another one behind them. It replaces one at the same time.
pub open spec fn appended(samples: Seq<Observation>, one: Observation) -> Seq<Observation> {
    if samples.len() > 0 && one.at.equals(samples.last().at) {
        samples.drop_last().push(one)
    } else {
        samples.push(one)
    }
}

/// Observations after another one: without those that have left the window, and
/// no more than are kept. One that is not accepted changes nothing.
pub open spec fn observed(samples: Seq<Observation>, one: Observation) -> Seq<Observation> {
    if !accepted(samples, one.at) {
        samples
    } else {
        newest(without_expired(appended(samples, one), window_start(one.at)))
    }
}

/// Whether observations are what a history can hold: their times are numbers
/// that increase, there are no more than are kept, and of those at or before the
/// start of the window there is one at most.
pub open spec fn is_history(samples: Seq<Observation>) -> bool {
    &&& samples.len() <= MAX_SAMPLES
    &&& forall|i: int| 0 <= i < samples.len() ==> (#[trigger] samples[i]).at.finite()
    &&& forall|i: int, j: int|
        0 <= i < j < samples.len() ==> (#[trigger] samples[i]).at.less((#[trigger] samples[j]).at)
    &&& forall|i: int|
        1 <= i < samples.len() ==> !(#[trigger] samples[i]).at.at_most(
            window_start(samples.last().at),
        )
}

proof fn lemma_without_expired(samples: Seq<Observation>, start: Double)
    requires
        samples.len() > 0,
        forall|i: int| 0 <= i < samples.len() ==> (#[trigger] samples[i]).at.finite(),
        forall|i: int, j: int|
            0 <= i < j < samples.len() ==> (#[trigger] samples[i]).at.less(
                (#[trigger] samples[j]).at,
            ),
    ensures
        ({
            let rest = without_expired(samples, start);
            let dropped = samples.len() - rest.len();
            &&& 0 < rest.len() <= samples.len()
            &&& rest == samples.skip(dropped)
            &&& rest.last() == samples.last()
            &&& forall|i: int|
                1 <= i < rest.len() ==> !(#[trigger] rest[i]).at.at_most(start)
        }),
    decreases samples.len(),
{
    let rest = without_expired(samples, start);
    if samples.len() > 1 && samples[1].at.at_most(start) {
        let less = samples.skip(1);
        assert forall|i: int, j: int| 0 <= i < j < less.len() implies (#[trigger] less[i]).at.less(
            (#[trigger] less[j]).at,
        ) by {
            assert(less[i] == samples[i + 1]);
            assert(less[j] == samples[j + 1]);
        }
        lemma_without_expired(less, start);
        assert(less.skip(less.len() - rest.len()) =~= samples.skip(samples.len() - rest.len()));
    } else {
        assert(samples.skip(0) =~= samples);
        assert forall|i: int| 1 <= i < rest.len() implies !(#[trigger] rest[i]).at.at_most(
            start,
        ) by {
            if i > 1 {
                assert(samples[1].at.less(samples[i].at));
            }
        }
    }
}

/// What is accepted stands behind what is there, in the order of time.
proof fn lemma_appended(samples: Seq<Observation>, one: Observation)
    requires
        is_history(samples),
        accepted(samples, one.at),
    ensures
        ({
            let all = appended(samples, one);
            &&& all.len() > 0
            &&& all.last() == one
            &&& forall|i: int| 0 <= i < all.len() ==> (#[trigger] all[i]).at.finite()
            &&& forall|i: int, j: int|
                0 <= i < j < all.len() ==> (#[trigger] all[i]).at.less((#[trigger] all[j]).at)
        }),
{
    let all = appended(samples, one);
    let last = all.len() - 1;
    assert forall|i: int| 0 <= i < all.len() implies (#[trigger] all[i]).at.finite() by {
        assert(i < last ==> all[i] == samples[i]);
    }
    assert forall|i: int, j: int| 0 <= i < j < all.len() implies (#[trigger] all[i]).at.less(
        (#[trigger] all[j]).at,
    ) by {
        assert(all[i] == samples[i]);
        if j < last {
            assert(all[j] == samples[j]);
        } else if i < samples.len() - 1 {
            assert(samples[i].at.less(samples[samples.len() - 1].at));
        }
    }
}

/// A history stays one whatever is observed: its times increase, it never holds
/// more than it may, and what has left the window is dropped.
pub proof fn lemma_observed_is_history(samples: Seq<Observation>, one: Observation)
    requires
        is_history(samples),
    ensures
        is_history(observed(samples, one)),
{
    if accepted(samples, one.at) {
        let all = appended(samples, one);
        let start = window_start(one.at);
        lemma_appended(samples, one);
        lemma_without_expired(all, start);
        let kept = without_expired(all, start);
        let after = newest(kept);
        let dropped = all.len() - after.len();
        assert(after =~= all.skip(dropped));
        assert(after.last() == one);
        assert forall|i: int, j: int| 0 <= i < j < after.len() implies (
        #[trigger] after[i]).at.less((#[trigger] after[j]).at) by {
            assert(after[i] == all[i + dropped]);
            assert(after[j] == all[j + dropped]);
        }
        assert forall|i: int| 0 <= i < after.len() implies (#[trigger] after[i]).at.finite() by {
            assert(after[i] == all[i + dropped]);
        }
        assert forall|i: int| 1 <= i < after.len() implies !(#[trigger] after[i]).at.at_most(
            start,
        ) by {
            let place = i + (kept.len() - after.len());
            assert(after[i] == kept[place]);
        }
    }
}

/// What has just been observed is the latest observation.
pub proof fn lemma_observed_is_latest(samples: Seq<Observation>, one: Observation)
    requires
        is_history(samples),
        accepted(samples, one.at),
    ensures
        observed(samples, one).len() > 0,
        observed(samples, one).last() == one,
{
    lemma_appended(samples, one);
    lemma_without_expired(appended(samples, one), window_start(one.at));
}

/// What is not accepted changes nothing: a time that is no number, or one before
/// the latest.
pub proof fn lemma_refused_changes_nothing(samples: Seq<Observation>, one: Observation)
    requires
        !one.at.finite() || (samples.len() > 0 && one.at.less(samples.last().at)),
    ensures
        observed(samples, one) == samples,
{
}

// ---------------------------------------------------------------------------
// Points
// ---------------------------------------------------------------------------

/// A value that can be shown: no number where it is missing or infinite.
pub open spec fn plotted(value: Option<Double>) -> Double {
    match value {
        Some(number) => if number.finite() {
            number
        } else {
            Double::no_number()
        },
        None => Double::no_number(),
    }
}

/// The value on the line between two points, at the start of the window.
#[verifier::opaque]
pub open spec fn clipped(
    at: Double,
    y: Double,
    next_at: Double,
    next_y: Double,
    start: Double,
) -> Double {
    let fraction = start.difference(at).quotient(next_at.difference(at));
    if y.finite() && next_y.finite() {
        y.product(Double::integer(1).difference(fraction)).sum(next_y.product(fraction))
    } else {
        Double::no_number()
    }
}

/// No line is drawn over a gap: between two values of which one is missing, there
/// is none.
pub proof fn lemma_gaps_stay(at: Double, y: Double, next_at: Double, next_y: Double, start: Double)
    requires
        !y.finite() || !next_y.finite(),
    ensures
        clipped(at, y, next_at, next_y, start) == Double::no_number(),
{
    reveal(clipped);
}

/// The point of an observation: where it lies before the window, the place where
/// the line to the next one enters it.
pub open spec fn point_of(times: Seq<Double>, values: Seq<Option<Double>>, i: int) -> Option<
    (Double, Double),
> {
    let latest = times.last();
    let start = window_start(latest);
    let y = plotted(values[i]);
    if times[i].less(start) {
        if i + 1 < times.len() && start.less(times[i + 1]) {
            Some(
                (
                    Double::integer(WINDOW_SECONDS as nat).opposite(),
                    clipped(times[i], y, times[i + 1], plotted(values[i + 1]), start),
                ),
            )
        } else {
            None
        }
    } else {
        Some((times[i].difference(latest), y))
    }
}

/// The points of the first observations.
pub open spec fn points_of(times: Seq<Double>, values: Seq<Option<Double>>, n: int) -> Seq<
    (Double, Double),
>
    decreases n,
{
    if n <= 0 {
        Seq::empty()
    } else {
        match point_of(times, values, n - 1) {
            Some(point) => points_of(times, values, n - 1).push(point),
            None => points_of(times, values, n - 1),
        }
    }
}

/// Whether a time lies in the window, in seconds before now.
pub open spec fn within_the_minute(seconds: Double) -> bool {
    Double::integer(WINDOW_SECONDS as nat).opposite().at_most(seconds) && seconds.at_most(
        Double::zero(),
    )
}

proof fn lemma_point_lies_in_the_window(
    samples: Seq<Observation>,
    values: Seq<Option<Double>>,
    i: int,
)
    requires
        is_history(samples),
        0 <= i < samples.len(),
        begins_in_the_window(samples),
    ensures
        match point_of(samples.map_values(|one: Observation| one.at), values, i) {
            Some(point) => within_the_minute(point.0),
            None => false,
        },
{
    let times = samples.map_values(|one: Observation| one.at);
    let latest = samples.last().at;
    let start = window_start(latest);
    let span = Double::integer(WINDOW_SECONDS as nat);
    let last = samples.len() - 1;
    assert(samples[last] == samples.last());
    assert(times.last() == latest);
    assert(times[i] == samples[i].at);
    lemma_integers(WINDOW_SECONDS as nat, WINDOW_SECONDS as nat);
    lemma_difference_below(latest, span);
    assert(i == last || samples[i].at.less(samples[last].at));
    assert(i == last || !samples[i + 1].at.at_most(start));
    if start.less(times[i]) {
        lemma_difference_above(latest, span, times[i]);
    } else if !times[i].less(start) {
        lemma_difference_not_positive(times[i], latest);
    }
}

/// Whether rounding leaves the first of the times in the window: one at its very
/// start, whose distance from the latest is rounded once more, may fall out of it
/// where times are so large that their last digits count for seconds.
pub open spec fn begins_in_the_window(samples: Seq<Observation>) -> bool {
    samples.len() > 0 && samples[0].at.equals(window_start(samples.last().at)) ==> Double::integer(
        WINDOW_SECONDS as nat,
    ).opposite().at_most(samples[0].at.difference(samples.last().at))
}

/// Every observation of a history is a point in the window, from a minute ago to now.
pub proof fn lemma_points_lie_in_the_window(
    samples: Seq<Observation>,
    values: Seq<Option<Double>>,
    n: int,
)
    requires
        is_history(samples),
        begins_in_the_window(samples),
        0 <= n <= samples.len(),
    ensures
        ({
            let points = points_of(samples.map_values(|one: Observation| one.at), values, n);
            &&& points.len() == n
            &&& forall|i: int| 0 <= i < n ==> within_the_minute((#[trigger] points[i]).0)
        }),
    decreases n,
{
    if n > 0 {
        lemma_points_lie_in_the_window(samples, values, n - 1);
        lemma_point_lies_in_the_window(samples, values, n - 1);
    }
}

/// The first point of a history that reaches back beyond the window stands at the window's
/// start, on the line from the observation before it to the one behind it.
pub proof fn lemma_first_point_is_clipped(samples: Seq<Observation>, values: Seq<Option<Double>>)
    requires
        is_history(samples),
        begins_in_the_window(samples),
        samples.len() > 0,
        samples[0].at.less(window_start(samples.last().at)),
    ensures
        ({
            let points = points_of(
                samples.map_values(|one: Observation| one.at),
                values,
                samples.len() as int,
            );
            &&& samples.len() > 1
            &&& points.len() == samples.len()
            &&& points[0].0 == Double::integer(WINDOW_SECONDS as nat).opposite()
            &&& points[0].1 == clipped(
                samples[0].at,
                plotted(values[0]),
                samples[1].at,
                plotted(values[1]),
                window_start(samples.last().at),
            )
        }),
{
    lemma_point_at(samples, values, samples.len() as int, 0);
}

/// A history whose latest time is an ordinary one, from 0 to a million million seconds,
/// begins in the window.
pub proof fn lemma_ordinary_times(samples: Seq<Observation>)
    requires
        is_history(samples),
        samples.len() > 0 ==> Double::zero().at_most(samples.last().at) && samples.last().at.at_most(
            Double::integer(1_000_000_000_000),
        ),
    ensures
        begins_in_the_window(samples),
{
    if samples.len() > 0 && samples[0].at.equals(window_start(samples.last().at)) {
        assert(samples[0].at.finite());
        assert(samples[samples.len() - 1] == samples.last());
        lemma_minute_is_kept(samples.last().at, samples[0].at);
    }
}

/// The times of the points of a history never decrease.
pub proof fn lemma_points_in_order(
    samples: Seq<Observation>,
    values: Seq<Option<Double>>,
    i: int,
    j: int,
)
    requires
        is_history(samples),
        begins_in_the_window(samples),
        0 <= i < j < samples.len(),
    ensures
        ({
            let times = samples.map_values(|one: Observation| one.at);
            let points = points_of(times, values, samples.len() as int);
            points[i].0.at_most(points[j].0)
        }),
{
    let times = samples.map_values(|one: Observation| one.at);
    let n = samples.len() as int;
    let points = points_of(times, values, n);
    let start = window_start(samples.last().at);
    lemma_points_lie_in_the_window(samples, values, n);
    lemma_point_at(samples, values, n, i);
    lemma_point_at(samples, values, n, j);
    assert(times[i] == samples[i].at);
    assert(times[j] == samples[j].at);
    assert(samples[n - 1] == samples.last());
    assert(times.last() == samples.last().at);
    if !times[i].less(start) {
        assert(!samples[j].at.at_most(start));
        lemma_differences_in_order(times[i], times[j], times.last());
    }
}

/// Each observation of a history is a point of its own.
proof fn lemma_point_at(
    samples: Seq<Observation>,
    values: Seq<Option<Double>>,
    n: int,
    i: int,
)
    requires
        is_history(samples),
        begins_in_the_window(samples),
        0 <= i < n <= samples.len(),
    ensures
        ({
            let times = samples.map_values(|one: Observation| one.at);
            &&& points_of(times, values, n).len() == n
            &&& point_of(times, values, i) == Some(points_of(times, values, n)[i])
        }),
    decreases n,
{
    lemma_points_lie_in_the_window(samples, values, n - 1);
    lemma_point_lies_in_the_window(samples, values, n - 1);
    if i < n - 1 {
        lemma_point_at(samples, values, n - 1, i);
    }
}

/// A value that is missing or infinite is no number in the points of a history.
pub proof fn lemma_missing_values_break_the_line(
    samples: Seq<Observation>,
    values: Seq<Option<Double>>,
    i: int,
)
    requires
        is_history(samples),
        begins_in_the_window(samples),
        0 <= i < samples.len(),
        match values[i] {
            Some(value) => !value.finite(),
            None => true,
        },
    ensures
        points_of(
            samples.map_values(|one: Observation| one.at),
            values,
            samples.len() as int,
        )[i].1 == Double::no_number(),
{
    let times = samples.map_values(|one: Observation| one.at);
    let start = window_start(times.last());
    lemma_point_at(samples, values, samples.len() as int, i);
    if times[i].less(start) {
        lemma_gaps_stay(
            times[i],
            plotted(values[i]),
            times[i + 1],
            plotted(values[i + 1]),
            start,
        );
    }
}

/// The last point of a history is its latest observation, now.
pub proof fn lemma_points_end_now(samples: Seq<Observation>, values: Seq<Option<Double>>)
    requires
        is_history(samples),
        samples.len() > 0,
    ensures
        ({
            let times = samples.map_values(|one: Observation| one.at);
            let points = points_of(times, values, samples.len() as int);
            &&& points.len() > 0
            &&& points.last().0.equals(Double::zero())
            &&& points.last().1 == plotted(values[samples.len() - 1])
        }),
{
    let times = samples.map_values(|one: Observation| one.at);
    let latest = samples.last().at;
    assert(times.last() == latest);
    assert(samples[samples.len() - 1] == samples.last());
    lemma_integers(WINDOW_SECONDS as nat, WINDOW_SECONDS as nat);
    lemma_difference_below(latest, Double::integer(WINDOW_SECONDS as nat));
    lemma_no_difference(latest, latest);
}

/// A point as a pair.
pub open spec fn pair(point: [Double; 2]) -> (Double, Double) {
    (point[0], point[1])
}

pub open spec fn pairs(points: Seq<[Double; 2]>) -> Seq<(Double, Double)> {
    points.map_values(|point: [Double; 2]| pair(point))
}

fn plot(value: Option<Double>) -> (result: Double)
    ensures
        result == plotted(value),
{
    match value {
        Some(number) => if number.is_finite() {
            number
        } else {
            Double::from_bits(NO_NUMBER)
        },
        None => Double::from_bits(NO_NUMBER),
    }
}

fn clip(at: Double, y: Double, next_at: Double, next_y: Double, start: Double) -> (result: Double)
    ensures
        result == clipped(at, y, next_at, next_y, start),
{
    proof {
        reveal(clipped);
    }
    let fraction: Double = start.sub(at).div(next_at.sub(at));
    if y.is_finite() && next_y.is_finite() {
        y.mul(Double::from_integer(1).sub(fraction)).add(next_y.mul(fraction))
    } else {
        Double::from_bits(NO_NUMBER)
    }
}

fn find_point(times: &Vec<Double>, values: &Vec<Option<Double>>, i: usize) -> (result: Option<
    (Double, Double),
>)
    requires
        times@.len() == values@.len(),
        i < times@.len(),
    ensures
        result == point_of(times@, values@, i as int),
{
    let latest: Double = times[times.len() - 1];
    let window: Double = Double::from_integer(WINDOW_SECONDS);
    let start: Double = latest.sub(window);
    let at: Double = times[i];
    let y: Double = plot(values[i]);
    if at.is_less(start) {
        if i + 1 < times.len() && start.is_less(times[i + 1]) {
            Some((window.neg(), clip(at, y, times[i + 1], plot(values[i + 1]), start)))
        } else {
            None
        }
    } else {
        Some((at.sub(latest), y))
    }
}

/// The points of values at times, in seconds before the last of them.
pub fn points(times: &Vec<Double>, values: &Vec<Option<Double>>) -> (result: Vec<[Double; 2]>)
    requires
        times@.len() == values@.len(),
    ensures
        pairs(result@) == points_of(times@, values@, times@.len() as int),
{
    let mut result: Vec<[Double; 2]> = Vec::new();
    assert(pairs(result@) =~= points_of(times@, values@, 0));
    let mut i: usize = 0;
    while i < times.len()
        invariant
            i <= times@.len(),
            times@.len() == values@.len(),
            pairs(result@) == points_of(times@, values@, i as int),
        decreases times@.len() - i,
    {
        let ghost before = result@;
        match find_point(times, values, i) {
            Some((x, y)) => {
                result.push([x, y]);
                assert(pairs(result@) =~= pairs(before).push((x, y)));
            },
            None => {},
        }
        i += 1;
    }
    result
}

// ---------------------------------------------------------------------------
// The history
// ---------------------------------------------------------------------------

/// The samples of the last minute.
#[derive(Debug)]
pub struct History {
    samples: VecDeque<Observation>,
}

impl View for History {
    type V = Seq<Observation>;

    closed spec fn view(&self) -> Seq<Observation> {
        self.samples@
    }
}

impl Default for History {
    fn default() -> (result: Self)
        ensures
            result@.len() == 0,
            is_history(result@),
    {
        History { samples: VecDeque::new() }
    }
}

impl History {
    /// The times of the observations.
    pub open spec fn times(self) -> Seq<Double> {
        self@.map_values(|one: Observation| one.at)
    }

    /// Store a monotonic observation. Invalid or out-of-order timestamps are
    /// ignored; a repeated timestamp replaces the observation at that instant.
    pub fn push(&mut self, at: Double, snapshot: Snapshot)
        ensures
            final(self)@ == observed(old(self)@, Observation { at, snapshot }),
            is_history(old(self)@) ==> is_history(final(self)@),
    {
        let ghost one = Observation { at, snapshot };
        proof {
            if is_history(self.samples@) {
                lemma_observed_is_history(self.samples@, one);
            }
        }
        if !at.is_finite() {
            return;
        }
        let count: usize = self.samples.len();
        if count > 0 {
            let last_at: Double = self.samples[count - 1].at;
            if at.is_less(last_at) {
                return;
            }
            if at.same_number(last_at) {
                let _ = self.samples.pop_back();
                assert(self.samples@ =~= old(self).samples@.drop_last());
            }
        }
        self.samples.push_back(Observation { at, snapshot });
        let ghost all = self.samples@;
        let start: Double = at.sub(Double::from_integer(WINDOW_SECONDS));
        while self.samples.len() > 1 && self.samples[1].at.is_at_most(start)
            invariant
                without_expired(all, start) == without_expired(self.samples@, start),
                self.samples@.len() > 0,
            decreases self.samples@.len(),
        {
            let ghost here = self.samples@;
            let _ = self.samples.pop_front();
            assert(self.samples@ =~= here.skip(1));
        }
        let ghost kept = self.samples@;
        assert(kept == without_expired(all, start));
        assert(kept.skip(0) =~= kept);
        while self.samples.len() > MAX_SAMPLES
            invariant
                self.samples@.len() <= kept.len(),
                self.samples@ == kept.skip(kept.len() - self.samples@.len()),
                kept.len() >= MAX_SAMPLES ==> self.samples@.len() >= MAX_SAMPLES,
                kept.len() < MAX_SAMPLES ==> self.samples@.len() == kept.len(),
            decreases self.samples@.len(),
        {
            let ghost here = self.samples@;
            let _ = self.samples.pop_front();
            assert(self.samples@ =~= here.skip(1));
            assert(here.skip(1) =~= kept.skip(kept.len() - self.samples@.len()));
        }
        assert(self.samples@ =~= newest(kept));
    }

    /// The latest sample.
    pub fn latest(&self) -> (result: Option<&Snapshot>)
        ensures
            result == if self@.len() > 0 {
                Some(&self@.last().snapshot)
            } else {
                None
            },
    {
        let count: usize = self.samples.len();
        if count > 0 {
            Some(&self.samples[count - 1].snapshot)
        } else {
            None
        }
    }

    /// When the latest sample was taken.
    pub fn latest_time(&self) -> (result: Double)
        ensures
            result == if self@.len() > 0 {
                self@.last().at
            } else {
                Double::zero()
            },
    {
        let count: usize = self.samples.len();
        if count > 0 {
            self.samples[count - 1].at
        } else {
            Double::from_bits(0)
        }
    }

    pub fn len(&self) -> (result: usize)
        ensures
            result == self@.len(),
    {
        self.samples.len()
    }

    /// The amount of measured history available, capped to the visible minute.
    pub fn span_seconds(&self) -> (result: Double)
        ensures
            result == if self@.len() > 0 {
                self@.last().at.difference(self@[0].at).clamped(
                    Double::zero(),
                    Double::integer(WINDOW_SECONDS as nat),
                )
            } else {
                Double::zero()
            },
            is_history(self@) ==> Double::zero().at_most(result) && result.at_most(
                Double::integer(WINDOW_SECONDS as nat),
            ),
    {
        proof {
            lemma_integers(0, WINDOW_SECONDS as nat);
            lemma_integers(WINDOW_SECONDS as nat, WINDOW_SECONDS as nat);
            if is_history(self@) && self@.len() > 0 {
                lemma_no_difference(self@.last().at, self@[0].at);
            }
        }
        if self.samples.len() == 0 {
            return Double::from_bits(0);
        }
        self.latest_time().sub(self.samples[0].at).clamp(
            Double::from_bits(0),
            Double::from_integer(WINDOW_SECONDS),
        )
    }

    /// Select one metric as chart points relative to the latest observation.
    /// Missing and non-finite values become NaN to break the chart's line;
    /// interpolation never crosses such a gap. The first minute is not filled
    /// with invented observations.
    pub fn series(&self, select: impl Fn(&Snapshot) -> Option<Double>) -> (result: Vec<
        [Double; 2],
    >)
        requires
            forall|snapshot: &Snapshot| call_requires(select, (snapshot,)),
        ensures
            exists|values: Seq<Option<Double>>|
                {
                    &&& values.len() == self@.len()
                    &&& forall|i: int|
                        0 <= i < values.len() ==> call_ensures(
                            select,
                            (&self@[i].snapshot,),
                            #[trigger] values[i],
                        )
                    &&& pairs(result@) == #[trigger] points_of(
                        self.times(),
                        values,
                        values.len() as int,
                    )
                },
    {
        let mut times: Vec<Double> = Vec::new();
        let mut values: Vec<Option<Double>> = Vec::new();
        let mut i: usize = 0;
        while i < self.samples.len()
            invariant
                i <= self.samples@.len(),
                forall|snapshot: &Snapshot| call_requires(select, (snapshot,)),
                times@ == self.times().take(i as int),
                values@.len() == i,
                forall|k: int|
                    0 <= k < i ==> call_ensures(
                        select,
                        (&self@[k].snapshot,),
                        #[trigger] values@[k],
                    ),
            decreases self.samples@.len() - i,
        {
            times.push(self.samples[i].at);
            values.push(select(&self.samples[i].snapshot));
            i += 1;
            assert(times@ =~= self.times().take(i as int));
        }
        assert(times@ =~= self.times());
        points(&times, &values)
    }
}

// ---------------------------------------------------------------------------
// The line into the window
// ---------------------------------------------------------------------------

/// The value at the start of the window lies on the line between the two observations around
/// it, but for rounding. It is the earlier value where the window starts at the earlier
/// observation, and the later one where it starts at the later. Left out are values and
/// times that are out of range together.
pub proof fn lemma_clipped_lies_on_the_line(
    at: Double,
    y: Double,
    next_at: Double,
    next_y: Double,
    start: Double,
)
    requires
        y.finite(),
        next_y.finite(),
        abs(y.value()) <= pow2(2096),
        abs(next_y.value()) <= pow2(2096),
        at.finite(),
        next_at.finite(),
        start.finite(),
        at.at_most(start),
        start.at_most(next_at),
        at.less(next_at),
        next_at.difference(at).finite(),
    ensures
        is_on_the_line(
            clipped(at, y, next_at, next_y, start),
            y,
            next_y,
            start.value() - at.value(),
            next_at.value() - at.value(),
        ),
        start.equals(at) ==> clipped(at, y, next_at, next_y, start).value() == y.value(),
        start.equals(next_at) ==> clipped(at, y, next_at, next_y, start).value()
            == next_y.value(),
{
    reveal(clipped);
    lemma_order_is_numeric(at, start);
    lemma_order_is_numeric(start, next_at);
    lemma_order_is_numeric(at, next_at);
    lemma_order_is_numeric(start, at);
    lemma_on_the_line(y, next_y, at, next_at, start);
}

/// The value at the start of the window lies between those of the two observations around
/// it, but for rounding: where both are the same it is the same.
pub proof fn lemma_clipped_lies_between(
    at: Double,
    y: Double,
    next_at: Double,
    next_y: Double,
    start: Double,
)
    requires
        y.finite(),
        next_y.finite(),
        abs(y.value()) <= pow2(2096),
        abs(next_y.value()) <= pow2(2096),
        at.finite(),
        next_at.finite(),
        start.finite(),
        at.at_most(start),
        start.at_most(next_at),
        at.less(next_at),
        next_at.difference(at).finite(),
    ensures
        ({
            let value = clipped(at, y, next_at, next_y, start).value();
            let least = min(y.value(), next_y.value());
            let most = max(y.value(), next_y.value());
            let error = 32 * (max(abs(y.value()) as int, abs(next_y.value()) as int) + HIDDEN);
            &&& PRECISION * (least - value) <= error
            &&& PRECISION * (value - most) <= error
        }),
{
    let value = clipped(at, y, next_at, next_y, start).value();
    let a = y.value();
    let b = next_y.value();
    let gone = start.value() - at.value();
    let whole = next_at.value() - at.value();
    let error = 32 * (max(abs(a) as int, abs(b) as int) + HIDDEN);
    lemma_clipped_lies_on_the_line(at, y, next_at, next_y, start);
    lemma_order_is_numeric(at, start);
    lemma_order_is_numeric(start, next_at);
    lemma_order_is_numeric(at, next_at);
    let e = PRECISION as int;
    let moved = (value - a) * whole;
    let exact = (b - a) * gone;
    assert(-(error * whole) <= e * (moved - exact) <= error * whole);
    if a <= b {
        assert(0 <= exact <= (b - a) * whole) by (nonlinear_arith)
            requires
                exact == (b - a) * gone,
                0 <= gone <= whole,
                a <= b,
        ;
        assert(e * (a - value) <= error) by (nonlinear_arith)
            requires
                -(error * whole) <= e * (moved - exact),
                moved == (value - a) * whole,
                exact >= 0,
                whole > 0,
                e > 0,
        ;
        assert(e * (value - b) <= error) by (nonlinear_arith)
            requires
                e * (moved - exact) <= error * whole,
                moved == (value - a) * whole,
                exact <= (b - a) * whole,
                whole > 0,
                e > 0,
        ;
    } else {
        assert((b - a) * whole <= exact <= 0) by (nonlinear_arith)
            requires
                exact == (b - a) * gone,
                0 <= gone <= whole,
                b < a,
        ;
        assert(e * (b - value) <= error) by (nonlinear_arith)
            requires
                -(error * whole) <= e * (moved - exact),
                moved == (value - a) * whole,
                exact >= (b - a) * whole,
                whole > 0,
                e > 0,
        ;
        assert(e * (value - a) <= error) by (nonlinear_arith)
            requires
                e * (moved - exact) <= error * whole,
                moved == (value - a) * whole,
                exact <= 0,
                whole > 0,
                e > 0,
        ;
    }
}

/// The first point of a history that reaches back beyond the window lies on the line from the
/// first observation to the second, at the start of the window.
pub proof fn lemma_first_point_lies_on_the_line(
    samples: Seq<Observation>,
    values: Seq<Option<Double>>,
)
    requires
        is_history(samples),
        begins_in_the_window(samples),
        samples.len() > 0,
        samples[0].at.less(window_start(samples.last().at)),
        values.len() == samples.len(),
        values[0] is Some && values[0]->0.finite() && abs(values[0]->0.value()) <= pow2(2096),
        values[1] is Some && values[1]->0.finite() && abs(values[1]->0.value()) <= pow2(2096),
        window_start(samples.last().at).finite(),
        samples[1].at.difference(samples[0].at).finite(),
    ensures
        is_on_the_line(
            points_of(
                samples.map_values(|one: Observation| one.at),
                values,
                samples.len() as int,
            )[0].1,
            values[0]->0,
            values[1]->0,
            window_start(samples.last().at).value() - samples[0].at.value(),
            samples[1].at.value() - samples[0].at.value(),
        ),
{
    let start = window_start(samples.last().at);
    let times = samples.map_values(|one: Observation| one.at);
    lemma_first_point_is_clipped(samples, values);
    lemma_point_at(samples, values, samples.len() as int, 0);
    assert(times[0] == samples[0].at && times[1] == samples[1].at);
    assert(times.last() == samples.last().at);
    assert(samples[1].at.finite() && samples[0].at.finite());
    lemma_order_is_numeric(samples[0].at, start);
    lemma_order_is_numeric(start, samples[1].at);
    lemma_order_is_numeric(samples[0].at, samples[1].at);
    lemma_clipped_lies_on_the_line(
        samples[0].at,
        values[0]->0,
        samples[1].at,
        values[1]->0,
        start,
    );
}

/// The window starts a minute before the latest observation, but for rounding.
pub proof fn lemma_window_is_a_minute(latest: Double)
    requires
        latest.finite(),
        window_start(latest).finite(),
    ensures
        is_close(window_start(latest).value(), latest.value() - 60 * pow2(FINEST as nat)),
{
    lemma_small_integer(60);
    lemma_difference_is_close(latest, Double::integer(60));
}

/// Each observation in the window is a point as long before now as it was observed before
/// the latest, but for rounding, and of its own value.
pub proof fn lemma_points_are_observations(
    samples: Seq<Observation>,
    values: Seq<Option<Double>>,
    i: int,
)
    requires
        is_history(samples),
        begins_in_the_window(samples),
        0 <= i < samples.len(),
        values.len() == samples.len(),
        !samples[i].at.less(window_start(samples.last().at)),
    ensures
        ({
            let point = points_of(
                samples.map_values(|one: Observation| one.at),
                values,
                samples.len() as int,
            )[i];
            &&& point.0.finite()
            &&& is_close(point.0.value(), samples[i].at.value() - samples.last().at.value())
            &&& values[i] is Some && values[i]->0.finite() ==> point.1 == values[i]->0
            &&& values[i] is None || !values[i]->0.finite() ==> point.1.nan()
        }),
{
    let times = samples.map_values(|one: Observation| one.at);
    lemma_point_at(samples, values, samples.len() as int, i);
    lemma_points_lie_in_the_window(samples, values, samples.len() as int);
    assert(times[i] == samples[i].at);
    assert(times.last() == samples.last().at);
    let point = points_of(times, values, samples.len() as int)[i];
    lemma_small_integer(60);
    assert(within_the_minute(point.0));
    assert(samples[i].at.finite() && samples[samples.len() - 1].at.finite());
    lemma_difference_is_close(samples[i].at, samples.last().at);
}

// ---------------------------------------------------------------------------
// What is kept
// ---------------------------------------------------------------------------

proof fn lemma_what_expires(samples: Seq<Observation>, start: Double, k: int)
    requires
        0 <= k < samples.len(),
        forall|i: int| 0 <= i < samples.len() ==> (#[trigger] samples[i]).at.finite(),
        forall|i: int, j: int|
            0 <= i < j < samples.len() ==> (#[trigger] samples[i]).at.less(
                (#[trigger] samples[j]).at,
            ),
        start.less(samples[k].at) || k + 1 == samples.len() || start.less(samples[k + 1].at),
    ensures
        samples.len() - without_expired(samples, start).len() <= k,
    decreases samples.len(),
{
    if samples.len() > 1 && samples[1].at.at_most(start) {
        let less = samples.skip(1);
        if k == 0 {
            assert(samples[0].at.less(samples[1].at));
        } else {
            assert forall|i: int, j: int| 0 <= i < j < less.len() implies (
            #[trigger] less[i]).at.less((#[trigger] less[j]).at) by {
                assert(less[i] == samples[i + 1]);
                assert(less[j] == samples[j + 1]);
            }
            assert(less[k - 1] == samples[k]);
            assert(k + 1 < samples.len() ==> less[k] == samples[k + 1]);
            lemma_what_expires(less, start, k - 1);
        }
    }
}

/// An observation that is in the window stays in the history, and so does the last one before
/// the window, which the line into it begins at; unless there are more than are kept, or the
/// new one is of the same time and takes its place.
pub proof fn lemma_window_is_kept(samples: Seq<Observation>, one: Observation, k: int)
    requires
        is_history(samples),
        accepted(samples, one.at),
        samples.len() < MAX_SAMPLES,
        0 <= k < samples.len(),
        !samples[k].at.equals(one.at),
        window_start(one.at).less(samples[k].at) || k + 1 == samples.len() || window_start(
            one.at,
        ).less(samples[k + 1].at),
        window_start(one.at).less(one.at),
    ensures
        observed(samples, one).contains(samples[k]),
{
    let all = appended(samples, one);
    let start = window_start(one.at);
    lemma_appended(samples, one);
    assert(all[k] == samples[k]) by {
        if one.at.equals(samples.last().at) && k == samples.len() - 1 {
            assert(samples[k] == samples.last());
        }
    }
    lemma_without_expired(all, start);
    assert(k + 1 < all.len());
    assert(all[all.len() - 1] == one);
    assert(k + 1 < samples.len() && k + 1 < all.len() - 1 ==> all[k + 1] == samples[k + 1]);
    if k + 1 == samples.len() {
        assert(all[k + 1] == one);
    } else if k + 1 == all.len() - 1 {
        assert(all[k + 1] == one);
    }
    lemma_what_expires(all, start, k);
    let kept = without_expired(all, start);
    let dropped = all.len() - kept.len();
    assert(kept.len() <= MAX_SAMPLES);
    assert(observed(samples, one) == kept);
    assert(kept[k - dropped] == all[k]);
}

/// What a history holds after an observation was there before it, or is the observation.
pub proof fn lemma_nothing_is_made_up(samples: Seq<Observation>, one: Observation, i: int)
    requires
        is_history(samples),
        0 <= i < observed(samples, one).len(),
    ensures
        observed(samples, one)[i] == one || samples.contains(observed(samples, one)[i]),
{
    if accepted(samples, one.at) {
        let all = appended(samples, one);
        let start = window_start(one.at);
        lemma_appended(samples, one);
        lemma_without_expired(all, start);
        let kept = without_expired(all, start);
        let after = newest(kept);
        let dropped = all.len() - after.len();
        assert(after =~= all.skip(dropped));
        assert(after[i] == all[i + dropped]);
        if i + dropped < all.len() - 1 {
            assert(all[i + dropped] == samples[i + dropped]);
        }
    }
}

/// How many observations are kept: two more than a minute has at two a second.
pub proof fn lemma_a_minute_at_the_fastest()
    ensures
        MAX_SAMPLES == 2 * WINDOW_SECONDS + 2,
        WINDOW_SECONDS == 60,
{
}

} // verus!
