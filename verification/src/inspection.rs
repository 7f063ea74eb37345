//! Inspecting the history of a chart, sample by sample.

use crate::accuracy::{
    lemma_difference_is_close, lemma_quotient_of_integers, lemma_small_integer, PRECISION,
};
use crate::arithmetic::{lemma_differences_in_order, lemma_no_difference};
use crate::chart::{
    ago, ago_text, apart, distance, in_window, is_in_window, sample_labels, samples_text, Series,
    SeriesView,
};
use crate::double::{lemma_order_is_numeric, units, Double, FINEST};
use crate::history::{pair, pairs};
use crate::rounding::lemma_powers;
use crate::sorting::{arranged, is_arranged, Arrangement};
use crate::text::{join, joined, views};
use vstd::arithmetic::power2::{
    lemma2_to64, lemma2_to64_rest, lemma_pow2_adds, lemma_pow2_pos, lemma_pow2_strictly_increases, pow2,
};
use vstd::math::abs;
use vstd::prelude::*;
use vstd::relations::{sorted_by, total_ordering};

verus! {

// ---------------------------------------------------------------------------
// Moments
// ---------------------------------------------------------------------------

/// The times of the points in the window.
pub open spec fn window_times(points: Seq<(Double, Double)>) -> Seq<Double>
    decreases points.len(),
{
    if points.len() == 0 {
        Seq::empty()
    } else if is_in_window(points.last().0) {
        window_times(points.drop_last()).push(points.last().0)
    } else {
        window_times(points.drop_last())
    }
}

/// The times of all points in the window, series by series.
pub open spec fn all_times(series: Seq<SeriesView>) -> Seq<Double>
    decreases series.len(),
{
    if series.len() == 0 {
        Seq::empty()
    } else {
        all_times(series.drop_last()) + window_times(series.last().points)
    }
}

/// The order of time, in which no two different numbers share a place.
pub open spec fn by_time() -> spec_fn(Double, Double) -> bool {
    |a: Double, b: Double| a.total_rank() <= b.total_rank()
}

/// Whether two times are the same moment: less than a millionth of a second apart.
pub open spec fn same_moment(a: Double, b: Double) -> bool {
    distance(a, b).less(Double::integer(1).quotient(Double::integer(1_000_000)))
}

/// Times without those at the same moment as the last that was kept before them.
pub open spec fn thinned(times: Seq<Double>) -> Seq<Double>
    decreases times.len(),
{
    if times.len() == 0 {
        Seq::empty()
    } else {
        let before = thinned(times.drop_last());
        if before.len() > 0 && same_moment(times.last(), before.last()) {
            before
        } else {
            before.push(times.last())
        }
    }
}

/// The moments that a chart has samples of, from the oldest on.
pub open spec fn moments_of(series: Seq<SeriesView>) -> Seq<Double> {
    thinned(all_times(series).sort_by(by_time()))
}

/// The order of time.
pub struct TimeOrder;

impl Arrangement<Double> for TimeOrder {
    open spec fn may_precede(&self, a: Double, b: Double) -> bool {
        a.total_rank() <= b.total_rank()
    }

    proof fn total(&self, a: Double, b: Double) {
    }

    proof fn transitive(&self, a: Double, b: Double, c: Double) {
    }

    fn can_precede(&self, a: &Double, b: &Double) -> (result: bool) {
        !b.stands_before(*a)
    }
}

proof fn lemma_by_time()
    ensures
        total_ordering(by_time()),
{
    assert forall|a: Double, b: Double|
        #![trigger by_time()(a, b)]
        by_time()(a, b) && by_time()(b, a) implies a == b by {
        assert(a.bits == b.bits);
    }
}

proof fn lemma_arranged_is_sorted(times: Seq<Double>, sorted: Seq<Double>)
    requires
        is_arranged(sorted, &TimeOrder),
        sorted.to_multiset() == times.to_multiset(),
    ensures
        sorted == times.sort_by(by_time()),
{
    lemma_by_time();
    times.lemma_sort_by_ensures(by_time());
    assert(sorted_by(sorted, by_time())) by {
        assert forall|i: int, j: int| 0 <= i < j < sorted.len() implies #[trigger] by_time()(
            sorted[i],
            sorted[j],
        ) by {
            assert(TimeOrder.may_precede(sorted[i], sorted[j]));
        }
    }
    vstd::seq_lib::lemma_sorted_unique(sorted, times.sort_by(by_time()), by_time());
}

fn push_times(times: &mut Vec<Double>, points: &Vec<[Double; 2]>)
    ensures
        final(times)@ == old(times)@ + window_times(pairs(points@)),
{
    let ghost before = times@;
    let ghost all = pairs(points@);
    let mut i: usize = 0;
    assert(times@ =~= before + window_times(all.take(0)));
    while i < points.len()
        invariant
            i <= points@.len(),
            all == pairs(points@),
            times@ == before + window_times(all.take(i as int)),
        decreases points@.len() - i,
    {
        let point: [Double; 2] = points[i];
        assert(all[i as int] == pair(point));
        assert(all.take(i + 1).drop_last() =~= all.take(i as int));
        if in_window(point[0]) {
            times.push(point[0]);
            assert(times@ =~= before + window_times(all.take(i + 1)));
        }
        i += 1;
    }
    assert(all.take(i as int) =~= all);
}

/// The moments that a chart has samples of, from the oldest on.
pub fn moments(series: &[Series]) -> (result: Vec<Double>)
    ensures
        result@ == moments_of(views(series@)),
{
    let ghost all = views(series@);
    let mut times: Vec<Double> = Vec::new();
    let mut i: usize = 0;
    assert(times@ =~= all_times(all.take(0)));
    while i < series.len()
        invariant
            i <= series@.len(),
            all == views(series@),
            times@ == all_times(all.take(i as int)),
        decreases series@.len() - i,
    {
        assert(all[i as int] == series@[i as int]@);
        assert(all.take(i + 1).drop_last() =~= all.take(i as int));
        push_times(&mut times, &series[i].points);
        i += 1;
    }
    assert(all.take(i as int) =~= all);
    let sorted: Vec<Double> = arranged(&times, &TimeOrder);
    proof {
        lemma_arranged_is_sorted(times@, sorted@);
    }
    let mut result: Vec<Double> = Vec::new();
    let mut k: usize = 0;
    assert(result@ =~= thinned(sorted@.take(0)));
    while k < sorted.len()
        invariant
            k <= sorted@.len(),
            result@ == thinned(sorted@.take(k as int)),
        decreases sorted@.len() - k,
    {
        assert(sorted@.take(k + 1).drop_last() =~= sorted@.take(k as int));
        let time: Double = sorted[k];
        let known: bool = result.len() > 0 && apart(time, result[result.len() - 1]).is_less(
            Double::from_integer(1).div(Double::from_integer(1_000_000)),
        );
        if !known {
            result.push(time);
        }
        k += 1;
    }
    assert(sorted@.take(k as int) =~= sorted@);
    result
}

proof fn lemma_thinned(times: Seq<Double>)
    requires
        sorted_by(times, by_time()),
    ensures
        thinned(times).len() == 0 <==> times.len() == 0,
        forall|i: int|
            0 <= i < thinned(times).len() ==> times.contains(#[trigger] thinned(times)[i]),
        sorted_by(thinned(times), by_time()),
    decreases times.len(),
{
    if times.len() > 0 {
        let rest = times.drop_last();
        let before = thinned(rest);
        let all = thinned(times);
        assert(sorted_by(rest, by_time())) by {
            assert forall|i: int, j: int| 0 <= i < j < rest.len() implies #[trigger] by_time()(
                rest[i],
                rest[j],
            ) by {
                assert(by_time()(times[i], times[j]));
            }
        }
        lemma_thinned(rest);
        assert forall|i: int| 0 <= i < all.len() implies times.contains(#[trigger] all[i]) by {
            if i < before.len() {
                assert(all[i] == before[i]);
                let k = choose|k: int| 0 <= k < rest.len() && rest[k] == before[i];
                assert(times[k] == all[i]);
            } else {
                assert(times[times.len() - 1] == all[i]);
            }
        }
        assert forall|i: int, j: int| 0 <= i < j < all.len() implies #[trigger] by_time()(
            all[i],
            all[j],
        ) by {
            if j < before.len() {
                assert(by_time()(before[i], before[j]));
            } else {
                assert(all[i] == before[i]);
                let k = choose|k: int| 0 <= k < rest.len() && rest[k] == before[i];
                assert(by_time()(times[k], times[times.len() - 1]));
            }
        }
    }
}

/// The moments of a chart are times of its samples in the window, from the oldest
/// on, and there are some where any sample lies in the window.
pub proof fn lemma_moments(series: Seq<SeriesView>)
    ensures
        moments_of(series).len() == 0 <==> all_times(series).len() == 0,
        forall|i: int|
            0 <= i < moments_of(series).len() ==> all_times(series).contains(
                #[trigger] moments_of(series)[i],
            ),
        forall|i: int, j: int|
            0 <= i < j < moments_of(series).len() ==> (#[trigger] moments_of(
                series,
            )[i]).total_rank() <= (#[trigger] moments_of(series)[j]).total_rank(),
{
    let times = all_times(series);
    let sorted = times.sort_by(by_time());
    let moments = moments_of(series);
    lemma_by_time();
    times.lemma_sort_by_ensures(by_time());
    lemma_thinned(sorted);
    vstd::seq_lib::to_multiset_len(times);
    vstd::seq_lib::to_multiset_len(sorted);
    assert forall|i: int| 0 <= i < moments.len() implies times.contains(#[trigger] moments[i]) by {
        assert(sorted.contains(moments[i]));
    }
    assert forall|i: int, j: int| 0 <= i < j < moments.len() implies (
    #[trigger] moments[i]).total_rank() <= (#[trigger] moments[j]).total_rank() by {
        assert(by_time()(moments[i], moments[j]));
    }
}

// ---------------------------------------------------------------------------
// The cursor
// ---------------------------------------------------------------------------

/// The observation that is being inspected.
#[derive(Clone, Copy, Debug, PartialEq, Eq, Structural)]
pub struct HistoryCursor {
    pub generation: u64,
    pub selected_at: Double,
    pub latest_at: Double,
}

/// What assistive technology asks of the cursor.
#[derive(Clone, Copy, Debug, PartialEq, Eq, Structural)]
pub enum CursorAction {
    Decrement,
    Increment,
    /// To move to a place, where it is given as a number.
    SetValue(Option<Double>),
}

/// What the user did with the cursor since it was last shown.
#[derive(Debug)]
pub struct CursorInput {
    /// The time under the pointer, where the plot was clicked.
    pub clicked: Option<Double>,
    pub left: bool,
    pub right: bool,
    pub home: bool,
    pub end: bool,
    pub actions: Vec<CursorAction>,
    /// Whether the chart has the keyboard after all of that.
    pub focused: bool,
}

/// What is shown of the history.
#[derive(Debug)]
pub struct Inspection {
    /// The moments that can be inspected, from the oldest on.
    pub times: Vec<Double>,
    /// Which of them is inspected.
    pub index: usize,
    /// Its time, where there is any.
    pub selected: Option<Double>,
    /// Whether the user moved the cursor.
    pub changed: bool,
    /// What is remembered for the next time.
    pub cursor: Option<HistoryCursor>,
}

/// The first of the times that are nearest to a time.
pub open spec fn nearest_moment(times: Seq<Double>, seconds: Double) -> nat
    decreases times.len(),
{
    if times.len() <= 1 {
        0
    } else {
        let before = nearest_moment(times.drop_last(), seconds);
        if distance(times.last(), seconds).total_rank() < distance(
            times[before as int],
            seconds,
        ).total_rank() {
            (times.len() - 1) as nat
        } else {
            before
        }
    }
}

/// The nearest moment is one of the moments, and none is nearer.
pub proof fn lemma_nearest_moment(times: Seq<Double>, seconds: Double)
    requires
        times.len() > 0,
    ensures
        nearest_moment(times, seconds) < times.len(),
        forall|i: int|
            0 <= i < times.len() ==> distance(
                times[nearest_moment(times, seconds) as int],
                seconds,
            ).total_rank() <= distance(#[trigger] times[i], seconds).total_rank(),
    decreases times.len(),
{
    if times.len() > 1 {
        let rest = times.drop_last();
        lemma_nearest_moment(rest, seconds);
        assert(forall|i: int| 0 <= i < rest.len() ==> rest[i] == #[trigger] times[i]);
        assert(times[times.len() - 1] == times.last());
    }
}

fn find_moment(times: &Vec<Double>, seconds: Double) -> (result: usize)
    ensures
        result == nearest_moment(times@, seconds),
        result < times@.len() || times@.len() == 0,
{
    if times.len() == 0 {
        return 0;
    }
    let mut best: usize = 0;
    let mut i: usize = 1;
    while i < times.len()
        invariant
            1 <= i <= times@.len(),
            best < i,
            best == nearest_moment(times@.take(i as int), seconds),
        decreases times@.len() - i,
    {
        assert(times@.take(i + 1).drop_last() =~= times@.take(i as int));
        if apart(times[i], seconds).stands_before(apart(times[best], seconds)) {
            best = i;
        }
        i += 1;
    }
    assert(times@.take(i as int) =~= times@);
    best
}

/// The last of so many places.
pub open spec fn last_place(length: nat) -> nat {
    if length == 0 {
        0
    } else {
        (length - 1) as nat
    }
}

/// Whether a cursor still belongs to the history that is shown.
pub open spec fn is_kept(cursor: HistoryCursor, generation: u64, origin: Double) -> bool {
    cursor.generation == generation && cursor.latest_at.at_most(origin)
}

/// Where the cursor stands before the user does anything: at the observation that
/// it stood at, or the nearest that is left, and in a new history at the newest.
pub open spec fn resumed_place(
    times: Seq<Double>,
    cursor: Option<HistoryCursor>,
    generation: u64,
    origin: Double,
) -> nat {
    match cursor {
        Some(cursor) => if is_kept(cursor, generation, origin) {
            nearest_moment(times, cursor.selected_at.difference(origin))
        } else {
            last_place(times.len())
        },
        None => last_place(times.len()),
    }
}

pub open spec fn place_before(place: nat) -> nat {
    if place == 0 {
        0
    } else {
        (place - 1) as nat
    }
}

pub open spec fn place_behind(place: nat, last: nat) -> nat {
    if place + 1 < last {
        place + 1
    } else {
        last
    }
}

/// Where an action moves the cursor.
pub open spec fn acted(place: nat, last: nat, action: CursorAction) -> nat {
    match action {
        CursorAction::Decrement => place_before(place),
        CursorAction::Increment => place_behind(place, last),
        CursorAction::SetValue(Some(value)) => if !value.finite() {
            place
        } else if value.nearest_integer() < last {
            value.nearest_integer()
        } else {
            last
        },
        CursorAction::SetValue(None) => place,
    }
}

/// Where actions move the cursor, one after the other.
pub open spec fn acted_all(place: nat, last: nat, actions: Seq<CursorAction>) -> nat
    decreases actions.len(),
{
    if actions.len() == 0 {
        place
    } else {
        acted(acted_all(place, last, actions.drop_last()), last, actions.last())
    }
}

/// Where a click and the keys move the cursor.
pub open spec fn pressed(times: Seq<Double>, place: nat, input: CursorInput) -> nat {
    let last = last_place(times.len());
    let clicked = match input.clicked {
        Some(seconds) => nearest_moment(times, seconds),
        None => place,
    };
    let left = if input.left {
        place_before(clicked)
    } else {
        clicked
    };
    let right = if input.right {
        place_behind(left, last)
    } else {
        left
    };
    if input.end {
        last
    } else if input.home {
        0
    } else {
        right
    }
}

/// Where the cursor stands.
pub open spec fn cursor_place(
    times: Seq<Double>,
    cursor: Option<HistoryCursor>,
    generation: u64,
    origin: Double,
    input: CursorInput,
) -> nat {
    acted_all(
        pressed(times, resumed_place(times, cursor, generation, origin), input),
        last_place(times.len()),
        input.actions@,
    )
}

/// The timestamp of a chart's newest observation, and the run that it is from.
pub open spec fn origin_of(series: Seq<SeriesView>) -> (Double, u64) {
    if series.len() == 0 {
        (Double::zero(), 0)
    } else {
        (series[0].time_origin, series[0].history_generation)
    }
}

fn act(place: usize, last: usize, action: CursorAction) -> (result: usize)
    requires
        place <= last,
    ensures
        result == acted(place as nat, last as nat, action),
        result <= last,
{
    match action {
        CursorAction::Decrement => place.saturating_sub(1),
        CursorAction::Increment => if place < last {
            place + 1
        } else {
            last
        },
        CursorAction::SetValue(Some(value)) => {
            if !value.is_finite() {
                return place;
            }
            let wanted: u64 = value.round_to_integer();
            if wanted < last as u64 {
                wanted as usize
            } else {
                last
            }
        },
        CursorAction::SetValue(None) => place,
    }
}

fn resume(
    times: &Vec<Double>,
    cursor: Option<HistoryCursor>,
    generation: u64,
    origin: Double,
) -> (result: usize)
    ensures
        result == resumed_place(times@, cursor, generation, origin),
        result <= last_place(times@.len()),
{
    match cursor {
        Some(known) => if known.generation == generation && known.latest_at.is_at_most(origin) {
            find_moment(times, known.selected_at.sub(origin))
        } else {
            times.len().saturating_sub(1)
        },
        None => times.len().saturating_sub(1),
    }
}

fn press(times: &Vec<Double>, place: usize, input: &CursorInput) -> (result: usize)
    requires
        place <= last_place(times@.len()),
    ensures
        result == pressed(times@, place as nat, *input),
        result <= last_place(times@.len()),
{
    let last: usize = times.len().saturating_sub(1);
    let mut index: usize = match input.clicked {
        Some(seconds) => find_moment(times, seconds),
        None => place,
    };
    if input.left {
        index = index.saturating_sub(1);
    }
    if input.right {
        index = if index < last {
            index + 1
        } else {
            last
        };
    }
    if input.home {
        index = 0;
    }
    if input.end {
        index = last;
    }
    index
}

fn act_all(place: usize, last: usize, actions: &Vec<CursorAction>) -> (result: usize)
    requires
        place <= last,
    ensures
        result == acted_all(place as nat, last as nat, actions@),
        result <= last,
{
    let mut index: usize = place;
    let mut i: usize = 0;
    while i < actions.len()
        invariant
            i <= actions@.len(),
            index <= last,
            index == acted_all(place as nat, last as nat, actions@.take(i as int)),
        decreases actions@.len() - i,
    {
        assert(actions@.take(i + 1).drop_last() =~= actions@.take(i as int));
        index = act(index, last, actions[i]);
        i += 1;
    }
    assert(actions@.take(i as int) =~= actions@);
    index
}

fn origin(series: &[Series]) -> (result: (Double, u64))
    ensures
        result == origin_of(views(series@)),
{
    if series.len() == 0 {
        return (Double::from_bits(0), 0);
    }
    assert(views(series@)[0] == series@[0]@);
    (series[0].time_origin, series[0].history_generation)
}

/// What is remembered of a cursor that stands at a time.
pub open spec fn remembered(
    selected: Option<Double>,
    held: bool,
    generation: u64,
    origin: Double,
) -> Option<HistoryCursor> {
    match selected {
        Some(seconds) => if held {
            Some(HistoryCursor { generation, selected_at: origin.sum(seconds), latest_at: origin })
        } else {
            None
        },
        None => None,
    }
}

/// Whether an inspection is the one of a chart that a cursor and what the user did with it
/// lead to.
pub open spec fn is_inspection(
    series: Seq<SeriesView>,
    cursor: Option<HistoryCursor>,
    input: CursorInput,
    result: Inspection,
) -> bool {
    let (origin, generation) = origin_of(series);
    &&& result.times@ == moments_of(series)
    &&& result.index == cursor_place(result.times@, cursor, generation, origin, input)
    &&& result.index <= last_place(result.times@.len())
    &&& result.selected == if result.times@.len() == 0 {
        None
    } else {
        Some(result.times@[result.index as int])
    }
    &&& result.changed == (result.index != resumed_place(
        result.times@,
        cursor,
        generation,
        origin,
    ))
    &&& result.cursor == remembered(
        result.selected,
        input.focused || input.actions@.len() > 0 || cursor is Some,
        generation,
        origin,
    )
}

/// Moves the cursor through the history of a chart, from where it stood and what
/// the user did since.
pub fn inspect_history(
    series: &[Series],
    cursor: Option<HistoryCursor>,
    input: &CursorInput,
) -> (result: Inspection)
    ensures
        is_inspection(views(series@), cursor, *input, result),
{
    let times: Vec<Double> = moments(series);
    let (origin, generation): (Double, u64) = origin(series);
    let resumed: usize = resume(&times, cursor, generation, origin);
    let index: usize = act_all(
        press(&times, resumed, input),
        times.len().saturating_sub(1),
        &input.actions,
    );
    let selected: Option<Double> = if times.len() > 0 {
        Some(times[index])
    } else {
        None
    };
    let held: bool = input.focused || input.actions.len() > 0 || cursor.is_some();
    let cursor: Option<HistoryCursor> = match selected {
        Some(seconds) => if held {
            Some(
                HistoryCursor { generation, selected_at: origin.add(seconds), latest_at: origin },
            )
        } else {
            None
        },
        None => None,
    };
    Inspection { times, index, selected, changed: index != resumed, cursor }
}

/// A history of another run, or one whose clock began anew, is inspected from its
/// newest observation on, whatever was inspected before.
pub proof fn lemma_new_history_starts_at_newest(
    times: Seq<Double>,
    cursor: HistoryCursor,
    generation: u64,
    origin: Double,
)
    requires
        cursor.generation != generation || origin.less(cursor.latest_at),
    ensures
        resumed_place(times, Some(cursor), generation, origin) == last_place(times.len()),
{
}

/// A cursor stays with its observation: where the time that it was left at is still
/// among the moments, it stands at that time again.
pub proof fn lemma_observation_is_kept(
    times: Seq<Double>,
    cursor: HistoryCursor,
    generation: u64,
    origin: Double,
    i: int,
)
    requires
        is_kept(cursor, generation, origin),
        forall|k: int| 0 <= k < times.len() ==> (#[trigger] times[k]).finite(),
        0 <= i < times.len(),
        times[i].equals(cursor.selected_at.difference(origin)),
    ensures
        times[resumed_place(times, Some(cursor), generation, origin) as int].equals(
            cursor.selected_at.difference(origin),
        ),
{
    let seconds = cursor.selected_at.difference(origin);
    let place = nearest_moment(times, seconds) as int;
    lemma_nearest_moment(times, seconds);
    assert(seconds.finite());
    assert(distance(times[place], seconds).total_rank() <= distance(times[i], seconds).total_rank());
    lemma_as_near(times[place], times[i], seconds);
}

/// What is as near to a number as what equals it equals it too.
proof fn lemma_as_near(a: Double, b: Double, seconds: Double)
    requires
        a.finite(),
        b.finite(),
        b.equals(seconds),
        distance(a, seconds).total_rank() <= distance(b, seconds).total_rank(),
    ensures
        a.equals(seconds),
{
    lemma_no_difference(b, seconds);
    lemma_no_difference(a, seconds);
}

proof fn lemma_window_times(points: Seq<(Double, Double)>)
    ensures
        forall|i: int|
            0 <= i < window_times(points).len() ==> is_in_window(#[trigger] window_times(points)[i]),
    decreases points.len(),
{
    if points.len() > 0 {
        let rest = window_times(points.drop_last());
        lemma_window_times(points.drop_last());
        assert forall|i: int| 0 <= i < window_times(points).len() implies is_in_window(
            #[trigger] window_times(points)[i],
        ) by {
            assert(i < rest.len() ==> is_in_window(rest[i]));
        }
    }
}

proof fn lemma_all_times(series: Seq<SeriesView>)
    ensures
        forall|i: int|
            0 <= i < all_times(series).len() ==> is_in_window(#[trigger] all_times(series)[i]),
    decreases series.len(),
{
    if series.len() > 0 {
        lemma_all_times(series.drop_last());
        lemma_window_times(series.last().points);
        let rest = all_times(series.drop_last());
        let added = window_times(series.last().points);
        assert forall|i: int| 0 <= i < all_times(series).len() implies is_in_window(
            #[trigger] all_times(series)[i],
        ) by {
            if i < rest.len() {
                assert(is_in_window(rest[i]));
            } else {
                assert(is_in_window(added[i - rest.len()]));
            }
        }
    }
}

proof fn lemma_moments_are_in_window(series: Seq<SeriesView>)
    ensures
        forall|i: int|
            0 <= i < moments_of(series).len() ==> is_in_window(#[trigger] moments_of(series)[i]),
{
    lemma_moments(series);
    lemma_all_times(series);
    assert forall|i: int| 0 <= i < moments_of(series).len() implies is_in_window(
        #[trigger] moments_of(series)[i],
    ) by {
        let times = all_times(series);
        let k = choose|k: int| 0 <= k < times.len() && times[k] == moments_of(series)[i];
        assert(is_in_window(times[k]));
    }
}

/// Whether a time is one of the moments, or at the same moment as one of them.
pub open spec fn has_moment(moments: Seq<Double>, time: Double) -> bool {
    exists|i: int|
        0 <= i < moments.len() && (#[trigger] moments[i] == time || same_moment(time, moments[i]))
}

proof fn lemma_thinned_covers(times: Seq<Double>, k: int)
    requires
        0 <= k < times.len(),
    ensures
        has_moment(thinned(times), times[k]),
    decreases times.len(),
{
    let rest = times.drop_last();
    let before = thinned(rest);
    let all = thinned(times);
    if k < rest.len() {
        lemma_thinned_covers(rest, k);
        assert(rest[k] == times[k]);
        let i = choose|i: int|
            0 <= i < before.len() && (#[trigger] before[i] == rest[k] || same_moment(
                rest[k],
                before[i],
            ));
        assert(all[i] == before[i]);
    } else if before.len() > 0 && same_moment(times.last(), before.last()) {
        assert(all[all.len() - 1] == before.last());
    } else {
        assert(all[all.len() - 1] == times[k]);
    }
}

/// Each sample in the window is at one of the moments of its chart.
pub proof fn lemma_every_sample_has_a_moment(series: Seq<SeriesView>, k: int)
    requires
        0 <= k < all_times(series).len(),
    ensures
        has_moment(moments_of(series), all_times(series)[k]),
{
    let times = all_times(series);
    let sorted = times.sort_by(by_time());
    lemma_by_time();
    times.lemma_sort_by_ensures(by_time());
    vstd::seq_lib::to_multiset_contains(times, times[k]);
    vstd::seq_lib::to_multiset_contains(sorted, times[k]);
    assert(times.contains(times[k]));
    let j = choose|j: int| 0 <= j < sorted.len() && sorted[j] == times[k];
    lemma_thinned_covers(sorted, j);
}

/// What is wanted from before the first of the moments is found at the first.
proof fn lemma_nearest_to_what_is_gone(times: Seq<Double>, wanted: Double)
    requires
        times.len() > 0,
        forall|i: int| 0 <= i < times.len() ==> (#[trigger] times[i]).finite(),
        forall|i: int, j: int|
            0 <= i < j < times.len() ==> (#[trigger] times[i]).total_rank() <= (
            #[trigger] times[j]).total_rank(),
        wanted.finite(),
        wanted.at_most(times[0]),
    ensures
        nearest_moment(times, wanted) == 0,
    decreases times.len(),
{
    if times.len() > 1 {
        let rest = times.drop_last();
        assert(forall|i: int| 0 <= i < rest.len() ==> rest[i] == #[trigger] times[i]);
        lemma_nearest_to_what_is_gone(rest, wanted);
        let first = times[0];
        let last = times[times.len() - 1];
        assert(first.total_rank() <= last.total_rank());
        lemma_differences_in_order(wanted, first, wanted);
        lemma_differences_in_order(first, last, wanted);
        lemma_no_difference(wanted, wanted);
        lemma_magnitudes_in_order(first.difference(wanted), last.difference(wanted));
    }
}

proof fn lemma_magnitudes_in_order(a: Double, b: Double)
    requires
        a.at_most(b),
        a.rank() >= 0,
    ensures
        a.magnitude().total_rank() <= b.magnitude().total_rank(),
{
}

/// Whether a time is one of the moments, and none of them is nearer to what is wanted.
pub open spec fn is_nearest(moments: Seq<Double>, time: Double, wanted: Double) -> bool {
    &&& moments.contains(time)
    &&& forall|i: int|
        0 <= i < moments.len() ==> distance(time, wanted).total_rank() <= distance(
            #[trigger] moments[i],
            wanted,
        ).total_rank()
}

/// Whether the user did nothing with the cursor.
pub open spec fn is_idle(input: CursorInput) -> bool {
    &&& input.clicked is None
    &&& !input.left && !input.right && !input.home && !input.end
    &&& input.actions@.len() == 0
}

proof fn lemma_idle(
    times: Seq<Double>,
    cursor: Option<HistoryCursor>,
    generation: u64,
    origin: Double,
    input: CursorInput,
)
    requires
        is_idle(input),
    ensures
        cursor_place(times, cursor, generation, origin, input) == resumed_place(
            times,
            cursor,
            generation,
            origin,
        ),
{
}

/// What is inspected stays the same from one time that a chart is shown to the next, while
/// the user does nothing: of the same run it is the moment nearest to the observation that
/// was inspected, and the oldest that is left where that is gone; of another run, or where
/// the clock has gone back or nothing was remembered, it is the newest. Nothing is inspected
/// exactly where no sample lies in the window.
pub proof fn lemma_inspected_stays(
    earlier: Seq<SeriesView>,
    cursor: Option<HistoryCursor>,
    first_input: CursorInput,
    first: Inspection,
    series: Seq<SeriesView>,
    input: CursorInput,
    second: Inspection,
)
    requires
        is_inspection(earlier, cursor, first_input, first),
        is_inspection(series, first.cursor, input, second),
        is_idle(input),
    ensures
        ({
            let moments = moments_of(series);
            let (old_origin, old_generation) = origin_of(earlier);
            let (origin, generation) = origin_of(series);
            let wanted = old_origin.sum(first.selected->0).difference(origin);
            &&& second.selected is None <==> all_times(series).len() == 0
            &&& second.selected is Some ==> if first.cursor is Some && generation == old_generation
                && old_origin.at_most(origin) {
                &&& is_nearest(moments, second.selected->0, wanted)
                &&& (exists|i: int| 0 <= i < moments.len() && (#[trigger] moments[i]).equals(wanted))
                    ==> second.selected->0.equals(wanted)
                &&& wanted.finite() && wanted.at_most(moments[0]) ==> second.selected == Some(
                    moments[0],
                )
            } else {
                second.selected == Some(moments.last())
            }
        }),
{
    let moments = moments_of(series);
    let (old_origin, old_generation) = origin_of(earlier);
    let (origin, generation) = origin_of(series);
    let wanted = old_origin.sum(first.selected->0).difference(origin);
    lemma_moments(series);
    lemma_idle(moments, first.cursor, generation, origin, input);
    if moments.len() > 0 && first.cursor is Some && generation == old_generation
        && old_origin.at_most(origin) {
        lemma_nearest_moment(moments, wanted);
        assert(second.index == nearest_moment(moments, wanted));
        lemma_moments_are_in_window(series);
        if exists|i: int| 0 <= i < moments.len() && (#[trigger] moments[i]).equals(wanted) {
            let i = choose|i: int|
                0 <= i < moments.len() && (#[trigger] moments[i]).equals(wanted);
            lemma_as_near(second.selected->0, moments[i], wanted);
        }
        if wanted.finite() && wanted.at_most(moments[0]) {
            lemma_nearest_to_what_is_gone(moments, wanted);
        }
    }
}

/// What is said of a chart's history as a control.
pub open spec fn control_text(name: Seq<char>) -> Seq<char> {
    name
        + ", 60-second history. Left and Right inspect samples; Home selects oldest; End selects newest; Escape leaves the chart."@
}

/// What is said of a chart's history as a control.
pub fn control_label(name: &str) -> (result: String)
    ensures
        result@ == control_text(name@),
{
    let mut text: String = name.to_owned();
    text.append(
        ", 60-second history. Left and Right inspect samples; Home selects oldest; End selects newest; Escape leaves the chart.",
    );
    text
}

/// What is said of the time that is inspected.
pub open spec fn inspected_text(
    series: Seq<SeriesView>,
    selected: Option<Double>,
    unit: Seq<char>,
) -> Seq<char> {
    match selected {
        Some(seconds) => ago_text(seconds) + ". "@ + joined(
            samples_text(series, seconds, unit),
            ". "@,
        ),
        None => "No samples available"@,
    }
}

/// What is said of the time that is inspected.
pub fn inspected_label(series: &[Series], selected: Option<Double>, unit: &str) -> (result: String)
    ensures
        result@ == inspected_text(views(series@), selected, unit@),
{
    match selected {
        Some(seconds) => {
            let mut text: String = ago(seconds);
            text.append(". ");
            let labels: Vec<String> = sample_labels(series, seconds, unit);
            text.append(join(&labels, ". ").as_str());
            text
        },
        None => "No samples available".to_owned(),
    }
}

// ---------------------------------------------------------------------------
// Keys
// ---------------------------------------------------------------------------

/// Two times are the same moment where they are less than a millionth of a second apart, but
/// for rounding.
pub proof fn lemma_same_moment(a: Double, b: Double)
    requires
        a.finite(),
        b.finite(),
        a.difference(b).finite(),
    ensures
        a.value() == b.value() ==> same_moment(a, b),
        same_moment(a, b) ==> 999_999 * abs(a.value() - b.value()) <= pow2(FINEST as nat),
        1_000_001 * abs(a.value() - b.value()) <= pow2(FINEST as nat) ==> same_moment(a, b),
        abs(a.difference(b).value()) == Double::integer(1).quotient(
            Double::integer(1_000_000),
        ).value() ==> !same_moment(a, b),
{
    let one = pow2(FINEST as nat);
    let limit = Double::integer(1).quotient(Double::integer(1_000_000));
    let d = a.difference(b);
    let far = distance(a, b);
    lemma_quotient_of_integers(1, 1_000_000);
    lemma_powers();
    lemma2_to64();
    lemma_pow2_strictly_increases(52, FINEST as nat);
    lemma_pow2_strictly_increases(64, FINEST as nat);
    lemma_pow2_adds(64, 1010);
    lemma_pow2_strictly_increases(53, 1010);
    lemma2_to64_rest();
    lemma_difference_is_close(a, b);
    assert(far.value() == abs(d.value()));
    assert(far.finite());
    lemma_order_is_numeric(far, limit);
    let exact = abs(a.value() - b.value());
    assert(exact == 0 ==> d.value() == 0);
    assert(abs(d.value()) <= 2 * exact);
    assert(limit.value() > 0);
}

/// Whether the user pressed no more than one of the keys, clicked nowhere and asked for nothing
/// else.
pub open spec fn is_key(input: CursorInput, left: bool, right: bool, home: bool, end: bool) -> bool {
    &&& input.clicked is None
    &&& input.left == left && input.right == right && input.home == home && input.end == end
    &&& input.actions@.len() == 0
}

/// The arrows move the cursor to the sample before or behind, as far as there is one; Home moves
/// it to the oldest and End to the newest.
pub proof fn lemma_keys_move_the_cursor(
    series: Seq<SeriesView>,
    cursor: Option<HistoryCursor>,
    still: CursorInput,
    stays: Inspection,
    input: CursorInput,
    moved: Inspection,
)
    requires
        is_idle(still),
        is_inspection(series, cursor, still, stays),
        is_inspection(series, cursor, input, moved),
    ensures
        is_key(input, true, false, false, false) ==> moved.index == if stays.index > 0 {
            stays.index - 1
        } else {
            0
        },
        is_key(input, false, true, false, false) ==> moved.index == if stays.index + 1
            < moments_of(series).len() {
            stays.index + 1
        } else {
            stays.index as int
        },
        is_key(input, false, false, true, false) ==> moved.index == 0,
        is_key(input, false, false, false, true) && moments_of(series).len() > 0 ==> moved.index
            == moments_of(series).len() - 1,
        is_key(input, false, false, false, true) || is_key(input, false, false, true, false)
            || is_key(input, true, false, false, false) || is_key(input, false, true, false, false)
            ==> moved.changed == (moved.index != stays.index),
{
    let (origin, generation) = origin_of(series);
    let times = moments_of(series);
    lemma_idle(times, cursor, generation, origin, still);
    assert(stays.index == resumed_place(times, cursor, generation, origin));
    if input.clicked is None && input.actions@.len() == 0 {
        lemma_keys_alone(times, cursor, generation, origin, input);
        assert(moved.index == pressed(times, stays.index as nat, input));
        lemma_pressed(times, stays.index as nat, input);
    }
}

proof fn lemma_keys_alone(
    times: Seq<Double>,
    cursor: Option<HistoryCursor>,
    generation: u64,
    origin: Double,
    input: CursorInput,
)
    requires
        input.actions@.len() == 0,
    ensures
        cursor_place(times, cursor, generation, origin, input) == pressed(
            times,
            resumed_place(times, cursor, generation, origin),
            input,
        ),
{
}

proof fn lemma_pressed(times: Seq<Double>, place: nat, input: CursorInput)
    requires
        place <= last_place(times.len()),
    ensures
        is_key(input, true, false, false, false) ==> pressed(times, place, input) == if place > 0 {
            place - 1
        } else {
            0
        },
        is_key(input, false, true, false, false) ==> pressed(times, place, input) == if place + 1
            < times.len() {
            place + 1
        } else {
            place
        },
        is_key(input, false, false, true, false) ==> pressed(times, place, input) == 0,
        is_key(input, false, false, false, true) && times.len() > 0 ==> pressed(times, place, input)
            == times.len() - 1,
{
}

/// A click moves the cursor to the sample that is nearest to where it was.
pub proof fn lemma_click_selects_the_nearest(
    series: Seq<SeriesView>,
    cursor: Option<HistoryCursor>,
    input: CursorInput,
    result: Inspection,
    seconds: Double,
)
    requires
        is_inspection(series, cursor, input, result),
        input.clicked == Some(seconds),
        !input.left && !input.right && !input.home && !input.end,
        input.actions@.len() == 0,
        moments_of(series).len() > 0,
    ensures
        result.selected matches Some(time) && is_nearest(moments_of(series), time, seconds),
{
    lemma_nearest_moment(moments_of(series), seconds);
    let place = nearest_moment(moments_of(series), seconds);
    assert(result.index == place);
    assert(moments_of(series)[place as int] == result.selected->0);
}

/// What assistive technology asks for moves the cursor by one, or to the sample of a number;
/// what is no number, or beyond the last, leads to where it stands or to the last.
pub proof fn lemma_actions_move_the_cursor(place: nat, last: nat, n: nat)
    requires
        place <= last,
    ensures
        acted(place, last, CursorAction::Decrement) == if place > 0 {
            place - 1
        } else {
            0
        },
        acted(place, last, CursorAction::Increment) == if place < last {
            place + 1
        } else {
            last
        },
        acted(place, last, CursorAction::SetValue(None)) == place,
        n < PRECISION ==> acted(place, last, CursorAction::SetValue(Some(Double::integer(n)))) == if n
            < last {
            n
        } else {
            last
        },
{
    if n < PRECISION {
        let one = pow2(FINEST as nat);
        lemma_small_integer(n);
        lemma_pow2_pos(FINEST as nat);
        let number = Double::integer(n);
        assert(units(number.size()) == n * one);
        assert((2 * (n * one) + one) / (2 * one) == n) by (nonlinear_arith)
            requires
                one > 0,
                n >= 0,
        ;
        assert(number.nearest_integer() == n);
    }
}

} // verus!
