//! What a chart of the last minute shows, and how its history is inspected.

use crate::accuracy::{
    differ_by, is_close, is_rounded, lemma_difference_is_close, lemma_error_over, lemma_error_times,
    lemma_parts_of_a_number, lemma_product_is_rounded, lemma_quotient_of_integers,
    lemma_share_of_way, lemma_small_integer, lemma_sum_is_close, lemma_way, PRECISION,
};
use crate::amounts::{amount_text, push_amount};
use crate::double::{lemma_order_is_numeric, lemma_units_increase, units, Double, FINEST, HIDDEN};
use crate::fixed::{fixed_text, push_fixed};
use crate::history::{pair, pairs};
use crate::margins::{
    leaves_room, lemma_factors, lemma_multiple_covers, lemma_product_leaves_room,
    lemma_quotient_within_step, lemma_step,
};
use crate::rounding::lemma_powers;
use crate::text::{join, joined, lemma_views_push, optional_view, same_text, views};
use crate::writing::{lemma_fixed_writes_the_number, writes_number};
use vstd::arithmetic::power2::{lemma2_to64, lemma_pow2_pos, lemma_pow2_strictly_increases, pow2};
use vstd::math::abs;
use vstd::prelude::*;

verus! {

// ---------------------------------------------------------------------------
// Series
// ---------------------------------------------------------------------------

/// One line of a chart.
#[derive(Clone, Debug)]
pub struct Series {
    pub name: String,
    /// As `0xRRGGBB`.
    pub color: u32,
    /// Collection run, changed when history is reset even if the clock continues.
    pub history_generation: u64,
    /// Monotonic timestamp at x = 0, shared by every series in this chart.
    pub time_origin: Double,
    /// Seconds relative to now, from -60 to 0. A non-finite y breaks the line.
    pub points: Vec<[Double; 2]>,
    pub dashed: bool,
}

/// A series as it is spoken of.
#[verifier::ext_equal]
pub struct SeriesView {
    pub name: Seq<char>,
    pub color: u32,
    pub history_generation: u64,
    pub time_origin: Double,
    pub points: Seq<(Double, Double)>,
    pub dashed: bool,
}

impl View for Series {
    type V = SeriesView;

    open spec fn view(&self) -> SeriesView {
        SeriesView {
            name: self.name@,
            color: self.color,
            history_generation: self.history_generation,
            time_origin: self.time_origin,
            points: pairs(self.points@),
            dashed: self.dashed,
        }
    }
}

/// How far behind the newest observation a time may lie, for rounding's sake.
pub open spec fn tolerance() -> Double {
    Double::integer(1).quotient(Double::integer(1000))
}

/// Whether a time lies in the window.
pub open spec fn is_in_window(seconds: Double) -> bool {
    &&& seconds.finite()
    &&& Double::integer(60).opposite().at_most(seconds)
    &&& seconds.at_most(tolerance())
}

/// Whether a time lies in the window.
pub fn in_window(seconds: Double) -> (result: bool)
    ensures
        result == is_in_window(seconds),
{
    seconds.is_finite() && Double::from_integer(60).neg().is_at_most(seconds)
        && seconds.is_at_most(Double::from_integer(1).div(Double::from_integer(1000)))
}

/// Whether a point is drawn.
pub open spec fn is_valid(point: (Double, Double)) -> bool {
    is_in_window(point.0) && point.1.finite()
}

/// Whether a point is drawn.
pub fn valid_point(point: [Double; 2]) -> (result: bool)
    ensures
        result == is_valid(pair(point)),
{
    in_window(point[0]) && point[1].is_finite()
}

/// The newest of the points in the window, drawn or not.
pub open spec fn latest_of(points: Seq<(Double, Double)>) -> Option<(Double, Double)>
    decreases points.len(),
{
    if points.len() == 0 {
        None
    } else {
        let before = latest_of(points.drop_last());
        let point = points.last();
        if !is_in_window(point.0) {
            before
        } else {
            match before {
                Some(latest) => if point.0.total_rank() < latest.0.total_rank() {
                    before
                } else {
                    Some(point)
                },
                None => Some(point),
            }
        }
    }
}

pub open spec fn optional_pair(point: Option<[Double; 2]>) -> Option<(Double, Double)> {
    match point {
        Some(point) => Some(pair(point)),
        None => None,
    }
}

/// The newest of the points in the window, drawn or not.
pub fn latest_point(series: &Series) -> (result: Option<[Double; 2]>)
    ensures
        optional_pair(result) == latest_of(series@.points),
{
    let ghost all = series@.points;
    let mut latest: Option<[Double; 2]> = None;
    let mut i: usize = 0;
    while i < series.points.len()
        invariant
            i <= series.points@.len(),
            all == pairs(series.points@),
            optional_pair(latest) == latest_of(all.take(i as int)),
        decreases series.points@.len() - i,
    {
        let point: [Double; 2] = series.points[i];
        assert(all[i as int] == pair(point));
        assert(all.take(i + 1).drop_last() =~= all.take(i as int));
        if in_window(point[0]) {
            latest = match latest {
                Some(known) => if point[0].stands_before(known[0]) {
                    Some(known)
                } else {
                    Some(point)
                },
                None => Some(point),
            };
        }
        i += 1;
    }
    assert(all.take(i as int) =~= all);
    latest
}

/// Nothing in the window is newer than the newest point, which is one of them.
pub proof fn lemma_latest_is_newest(points: Seq<(Double, Double)>)
    ensures
        match latest_of(points) {
            Some(latest) => {
                &&& points.contains(latest)
                &&& is_in_window(latest.0)
                &&& forall|i: int|
                    0 <= i < points.len() && is_in_window((#[trigger] points[i]).0)
                        ==> points[i].0.total_rank() <= latest.0.total_rank()
            },
            None => forall|i: int|
                0 <= i < points.len() ==> !is_in_window((#[trigger] points[i]).0),
        },
    decreases points.len(),
{
    if points.len() > 0 {
        let rest = points.drop_last();
        lemma_latest_is_newest(rest);
        assert(points =~= rest.push(points.last()));
        assert(forall|i: int| 0 <= i < rest.len() ==> rest[i] == #[trigger] points[i]);
        assert(points[points.len() - 1] == points.last());
        match latest_of(rest) {
            Some(latest) => {
                let k = choose|k: int| 0 <= k < rest.len() && rest[k] == latest;
                assert(points[k] == latest);
            },
            None => {},
        }
    }
}

// ---------------------------------------------------------------------------
// Lines
// ---------------------------------------------------------------------------

/// The drawn points at the end of a list, back to the last that is not drawn.
pub open spec fn open_path(points: Seq<(Double, Double)>) -> Seq<(Double, Double)>
    decreases points.len(),
{
    if points.len() == 0 || !is_valid(points.last()) {
        Seq::empty()
    } else {
        open_path(points.drop_last()).push(points.last())
    }
}

/// The unbroken paths that end before a point that is not drawn.
pub open spec fn closed_paths(points: Seq<(Double, Double)>) -> Seq<Seq<(Double, Double)>>
    decreases points.len(),
{
    if points.len() == 0 {
        Seq::empty()
    } else {
        let before = closed_paths(points.drop_last());
        let path = open_path(points.drop_last());
        if is_valid(points.last()) || path.len() == 0 {
            before
        } else {
            before.push(path)
        }
    }
}

/// The unbroken paths through a list of points.
pub open spec fn paths_of(points: Seq<(Double, Double)>) -> Seq<Seq<(Double, Double)>> {
    if open_path(points).len() == 0 {
        closed_paths(points)
    } else {
        closed_paths(points).push(open_path(points))
    }
}

pub open spec fn path_pairs(paths: Seq<Vec<[Double; 2]>>) -> Seq<Seq<(Double, Double)>> {
    paths.map_values(|path: Vec<[Double; 2]>| pairs(path@))
}

proof fn lemma_pairs_push(points: Seq<[Double; 2]>, point: [Double; 2])
    ensures
        pairs(points.push(point)) == pairs(points).push(pair(point)),
{
    assert(pairs(points.push(point)) =~= pairs(points).push(pair(point)));
}

/// The unbroken paths through a list of points.
pub fn paths(points: &Vec<[Double; 2]>) -> (result: Vec<Vec<[Double; 2]>>)
    ensures
        path_pairs(result@) == paths_of(pairs(points@)),
{
    let ghost all = pairs(points@);
    let mut done: Vec<Vec<[Double; 2]>> = Vec::new();
    let mut path: Vec<[Double; 2]> = Vec::new();
    let mut i: usize = 0;
    assert(path_pairs(done@) =~= closed_paths(all.take(0)));
    assert(pairs(path@) =~= open_path(all.take(0)));
    while i < points.len()
        invariant
            i <= points@.len(),
            all == pairs(points@),
            path_pairs(done@) == closed_paths(all.take(i as int)),
            pairs(path@) == open_path(all.take(i as int)),
        decreases points@.len() - i,
    {
        let point: [Double; 2] = points[i];
        assert(all[i as int] == pair(point));
        assert(all.take(i + 1).drop_last() =~= all.take(i as int));
        if valid_point(point) {
            proof {
                lemma_pairs_push(path@, point);
            }
            path.push(point);
        } else if path.len() > 0 {
            let ghost before = done@;
            let ghost ended = path;
            done.push(path);
            path = Vec::new();
            assert(path_pairs(done@) =~= path_pairs(before).push(pairs(ended@)));
            assert(pairs(path@) =~= Seq::empty());
        } else {
            assert(pairs(path@) =~= Seq::empty());
        }
        i += 1;
    }
    assert(all.take(i as int) =~= all);
    if path.len() > 0 {
        let ghost before = done@;
        let ghost ended = path;
        done.push(path);
        assert(path_pairs(done@) =~= path_pairs(before).push(pairs(ended@)));
    }
    done
}

/// The points of a list that are drawn.
pub open spec fn drawn(points: Seq<(Double, Double)>) -> Seq<(Double, Double)>
    decreases points.len(),
{
    if points.len() == 0 {
        Seq::empty()
    } else if is_valid(points.last()) {
        drawn(points.drop_last()).push(points.last())
    } else {
        drawn(points.drop_last())
    }
}

/// The points of paths, one path behind the other.
pub open spec fn strung(paths: Seq<Seq<(Double, Double)>>) -> Seq<(Double, Double)>
    decreases paths.len(),
{
    if paths.len() == 0 {
        Seq::empty()
    } else {
        strung(paths.drop_last()) + paths.last()
    }
}

proof fn lemma_strung_push(paths: Seq<Seq<(Double, Double)>>, path: Seq<(Double, Double)>)
    ensures
        strung(paths.push(path)) == strung(paths) + path,
{
    assert(paths.push(path).drop_last() =~= paths);
}

proof fn lemma_paths_so_far(points: Seq<(Double, Double)>)
    ensures
        strung(closed_paths(points)) + open_path(points) == drawn(points),
    decreases points.len(),
{
    if points.len() > 0 {
        let rest = points.drop_last();
        lemma_paths_so_far(rest);
        if is_valid(points.last()) {
            assert(strung(closed_paths(rest)) + open_path(rest).push(points.last()) =~= (strung(
                closed_paths(rest),
            ) + open_path(rest)).push(points.last()));
        } else if open_path(rest).len() > 0 {
            lemma_strung_push(closed_paths(rest), open_path(rest));
            assert(strung(closed_paths(points)) + open_path(points) =~= drawn(points));
        } else {
            assert(strung(closed_paths(points)) + open_path(points) =~= drawn(points));
        }
    } else {
        assert(strung(closed_paths(points)) + open_path(points) =~= drawn(points));
    }
}

/// The paths of a list hold the points that are drawn, all of them and in order.
pub proof fn lemma_paths_hold_what_is_drawn(points: Seq<(Double, Double)>)
    ensures
        strung(paths_of(points)) == drawn(points),
{
    lemma_paths_so_far(points);
    if open_path(points).len() > 0 {
        lemma_strung_push(closed_paths(points), open_path(points));
    } else {
        assert(strung(closed_paths(points)) + open_path(points) =~= strung(closed_paths(points)));
    }
}

/// Whether any point of a chart is drawn.
pub open spec fn draws_any(series: Seq<SeriesView>) -> bool {
    exists|i: int, j: int|
        0 <= i < series.len() && 0 <= j < series[i].points.len() && is_valid(
            #[trigger] series[i].points[j],
        )
}

fn draws(points: &Vec<[Double; 2]>) -> (result: bool)
    ensures
        result == exists|j: int|
            0 <= j < points@.len() && is_valid(#[trigger] pairs(points@)[j]),
{
    let mut j: usize = 0;
    while j < points.len()
        invariant
            j <= points@.len(),
            forall|k: int| 0 <= k < j ==> !is_valid(#[trigger] pairs(points@)[k]),
        decreases points@.len() - j,
    {
        assert(pairs(points@)[j as int] == pair(points@[j as int]));
        if valid_point(points[j]) {
            return true;
        }
        j += 1;
    }
    false
}

/// Whether any point of a chart is drawn.
pub fn has_data(series: &[Series]) -> (result: bool)
    ensures
        result == draws_any(views(series@)),
{
    let ghost all = views(series@);
    let mut i: usize = 0;
    while i < series.len()
        invariant
            i <= series@.len(),
            all == views(series@),
            forall|k: int, j: int|
                0 <= k < i && 0 <= j < all[k].points.len() ==> !is_valid(
                    #[trigger] all[k].points[j],
                ),
        decreases series@.len() - i,
    {
        assert(all[i as int] == series@[i as int]@);
        if draws(&series[i].points) {
            proof {
                let j = choose|j: int|
                    0 <= j < series@[i as int].points@.len() && is_valid(
                        #[trigger] pairs(series@[i as int].points@)[j],
                    );
                assert(is_valid(all[i as int].points[j]));
            }
            return true;
        }
        i += 1;
    }
    false
}

// ---------------------------------------------------------------------------
// Ranges
// ---------------------------------------------------------------------------

/// The least and the largest value that is drawn.
pub open spec fn range_of(points: Seq<(Double, Double)>) -> Option<(Double, Double)>
    decreases points.len(),
{
    if points.len() == 0 {
        None
    } else {
        let before = range_of(points.drop_last());
        let value = points.last().1;
        if !is_valid(points.last()) {
            before
        } else {
            match before {
                Some((least, largest)) => Some((least.minimum(value), largest.maximum(value))),
                None => Some((value, value)),
            }
        }
    }
}

/// The least and the largest value that is drawn.
pub fn range(points: &Vec<[Double; 2]>) -> (result: Option<(Double, Double)>)
    ensures
        result == range_of(pairs(points@)),
{
    let ghost all = pairs(points@);
    let mut known: Option<(Double, Double)> = None;
    let mut i: usize = 0;
    while i < points.len()
        invariant
            i <= points@.len(),
            all == pairs(points@),
            known == range_of(all.take(i as int)),
        decreases points@.len() - i,
    {
        let point: [Double; 2] = points[i];
        assert(all[i as int] == pair(point));
        assert(all.take(i + 1).drop_last() =~= all.take(i as int));
        if valid_point(point) {
            known = match known {
                Some((least, largest)) => Some((least.min(point[1]), largest.max(point[1]))),
                None => Some((point[1], point[1])),
            };
        }
        i += 1;
    }
    assert(all.take(i as int) =~= all);
    known
}

/// A range widened to hold the values that are drawn.
pub open spec fn widened(
    range: (Double, Double),
    points: Seq<(Double, Double)>,
) -> (Double, Double)
    decreases points.len(),
{
    if points.len() == 0 {
        range
    } else {
        let before = widened(range, points.drop_last());
        let value = points.last().1;
        if is_valid(points.last()) {
            (before.0.minimum(value), before.1.maximum(value))
        } else {
            before
        }
    }
}

/// The least range that holds zero and every value that is drawn.
pub open spec fn extent(series: Seq<SeriesView>) -> (Double, Double)
    decreases series.len(),
{
    if series.len() == 0 {
        (Double::zero(), Double::zero())
    } else {
        widened(extent(series.drop_last()), series.last().points)
    }
}

fn widen(range: (Double, Double), points: &Vec<[Double; 2]>) -> (result: (Double, Double))
    ensures
        result == widened(range, pairs(points@)),
{
    let ghost all = pairs(points@);
    let mut wide: (Double, Double) = range;
    let mut i: usize = 0;
    while i < points.len()
        invariant
            i <= points@.len(),
            all == pairs(points@),
            wide == widened(range, all.take(i as int)),
        decreases points@.len() - i,
    {
        let point: [Double; 2] = points[i];
        assert(all[i as int] == pair(point));
        assert(all.take(i + 1).drop_last() =~= all.take(i as int));
        if valid_point(point) {
            wide = (wide.0.min(point[1]), wide.1.max(point[1]));
        }
        i += 1;
    }
    assert(all.take(i as int) =~= all);
    wide
}

/// The least range that holds zero and every value that is drawn.
pub fn extremes(series: &[Series]) -> (result: (Double, Double))
    ensures
        result == extent(views(series@)),
{
    let ghost all = views(series@);
    let zero: Double = Double::from_bits(0);
    let mut wide: (Double, Double) = (zero, zero);
    let mut i: usize = 0;
    while i < series.len()
        invariant
            i <= series@.len(),
            all == views(series@),
            wide == extent(all.take(i as int)),
        decreases series@.len() - i,
    {
        assert(all[i as int] == series@[i as int]@);
        assert(all.take(i + 1).drop_last() =~= all.take(i as int));
        wide = widen(wide, &series[i].points);
        i += 1;
    }
    assert(all.take(i as int) =~= all);
    wide
}

/// Whether a range holds a value.
pub open spec fn spans(range: (Double, Double), value: Double) -> bool {
    range.0.at_most(value) && value.at_most(range.1)
}

proof fn lemma_widened(range: (Double, Double), points: Seq<(Double, Double)>, value: Double)
    requires
        spans(range, Double::zero()),
        spans(range, value) || exists|i: int|
            0 <= i < points.len() && is_valid(#[trigger] points[i]) && points[i].1 == value,
    ensures
        spans(widened(range, points), Double::zero()),
        spans(widened(range, points), value),
    decreases points.len(),
{
    if points.len() > 0 {
        let rest = points.drop_last();
        let before = widened(range, rest);
        lemma_widened(range, rest, Double::zero());
        if spans(range, value) {
            lemma_widened(range, rest, value);
        } else {
            let i = choose|i: int|
                0 <= i < points.len() && is_valid(#[trigger] points[i]) && points[i].1 == value;
            if i < rest.len() {
                assert(rest[i] == points[i]);
                lemma_widened(range, rest, value);
            }
        }
    }
}

/// What a chart reaches over holds zero and every value that is drawn in it.
pub proof fn lemma_extent_holds_every_value(series: Seq<SeriesView>, i: int, j: int)
    requires
        0 <= i < series.len(),
        0 <= j < series[i].points.len(),
        is_valid(series[i].points[j]),
    ensures
        spans(extent(series), Double::zero()),
        spans(extent(series), series[i].points[j].1),
    decreases series.len(),
{
    let value = series[i].points[j].1;
    let rest = series.drop_last();
    lemma_extent_holds_zero(rest);
    if i < rest.len() {
        assert(rest[i] == series[i]);
        lemma_extent_holds_every_value(rest, i, j);
    }
    lemma_widened(extent(rest), series.last().points, value);
}

proof fn lemma_extent_holds_zero(series: Seq<SeriesView>)
    ensures
        spans(extent(series), Double::zero()),
    decreases series.len(),
{
    if series.len() > 0 {
        lemma_extent_holds_zero(series.drop_last());
        lemma_widened(extent(series.drop_last()), series.last().points, Double::zero());
    }
}

proof fn lemma_widened_is_finite(range: (Double, Double), points: Seq<(Double, Double)>)
    requires
        range.0.finite(),
        range.1.finite(),
        !range.1.negative(),
    ensures
        widened(range, points).0.finite(),
        widened(range, points).1.finite(),
        !widened(range, points).1.negative(),
    decreases points.len(),
{
    if points.len() > 0 {
        lemma_widened_is_finite(range, points.drop_last());
    }
}

proof fn lemma_extent_is_finite(series: Seq<SeriesView>)
    ensures
        extent(series).0.finite(),
        extent(series).1.finite(),
        !extent(series).1.negative(),
    decreases series.len(),
{
    if series.len() > 0 {
        lemma_extent_is_finite(series.drop_last());
        lemma_widened_is_finite(extent(series.drop_last()), series.last().points);
    }
}

/// The smallest number above zero with all its digits.
pub const MIN_POSITIVE: u64 = 0x10_0000_0000_0000;

/// Whether a bound is scaled up: one that can be, and is above zero.
pub open spec fn is_scalable(value: Double) -> bool {
    value.finite() && !value.at_most(Double::zero())
}

/// One, two, five or ten: the least that is not below a fraction.
pub open spec fn step_above(fraction: Double) -> Double {
    if fraction.at_most(Double::integer(1)) {
        Double::integer(1)
    } else if fraction.at_most(Double::integer(2)) {
        Double::integer(2)
    } else if fraction.at_most(Double::integer(5)) {
        Double::integer(5)
    } else {
        Double::integer(10)
    }
}

/// A round number not below a value, given the power of ten at or below it.
pub open spec fn round_number(value: Double, magnitude: Double) -> Double {
    if is_scalable(value) {
        step_above(value.quotient(magnitude)).product(magnitude).maximum(
            Double { bits: MIN_POSITIVE },
        )
    } else {
        Double::integer(1)
    }
}

fn scalable(value: Double) -> (result: bool)
    ensures
        result == is_scalable(value),
{
    value.is_finite() && !value.is_at_most(Double::from_bits(0))
}

/// A round number not below a value, given the power of ten at or below it.
pub fn nice_upper(value: Double, magnitude: Double) -> (result: Double)
    ensures
        result == round_number(value, magnitude),
{
    if !scalable(value) {
        return Double::from_integer(1);
    }
    let fraction: Double = value.div(magnitude);
    let step: Double = if fraction.is_at_most(Double::from_integer(1)) {
        Double::from_integer(1)
    } else if fraction.is_at_most(Double::from_integer(2)) {
        Double::from_integer(2)
    } else if fraction.is_at_most(Double::from_integer(5)) {
        Double::from_integer(5)
    } else {
        Double::from_integer(10)
    };
    step.mul(magnitude).max(Double::from_bits(MIN_POSITIVE))
}

/// Whether a bound is the round number that a way to find powers of ten leads to.
pub open spec fn is_bound<F: Fn(Double) -> Double>(
    magnitude: F,
    value: Double,
    bound: Double,
) -> bool {
    if is_scalable(value) {
        exists|power: Double|
            call_ensures(magnitude, (value,), power) && bound == #[trigger] round_number(
                value,
                power,
            )
    } else {
        bound == Double::integer(1)
    }
}

/// A value below zero, without its sign and a twentieth larger.
pub open spec fn depth(least: Double) -> Double {
    least.opposite().product(Double::integer(105).quotient(Double::integer(100)))
}

/// A value a tenth larger.
pub open spec fn headroom(largest: Double) -> Double {
    largest.product(Double::integer(11).quotient(Double::integer(10)))
}

/// The largest value of an axis, where it is fixed.
pub open spec fn fixed_bound(fixed_max: Option<Double>) -> Option<Double> {
    match fixed_max {
        Some(bound) => if bound.finite() && Double::zero().less(bound) {
            Some(bound)
        } else {
            None
        },
        None => None,
    }
}

/// Whether the lower end of an axis is the one that a way to find powers of ten
/// leads to: zero where nothing is below it.
pub open spec fn is_lower_end<F: Fn(Double) -> Double>(
    magnitude: F,
    least: Double,
    lower: Double,
) -> bool {
    if least.less(Double::zero()) {
        exists|bound: Double| #[trigger]
            is_bound(magnitude, depth(least), bound) && lower == bound.opposite()
    } else {
        lower == Double::zero()
    }
}

/// The ends of the axis of a chart. `magnitude` finds the power of ten at or below
/// a number above zero.
pub fn bounds(
    series: &[Series],
    fixed_max: Option<Double>,
    magnitude: impl Fn(Double) -> Double,
) -> (result: (Double, Double))
    requires
        forall|value: Double| call_requires(magnitude, (value,)),
    ensures
        is_lower_end(magnitude, extent(views(series@)).0, result.0),
        match fixed_bound(fixed_max) {
            Some(bound) => result.1 == bound,
            None => is_bound(magnitude, headroom(extent(views(series@)).1), result.1),
        },
{
    let (least, largest): (Double, Double) = extremes(series);
    let zero: Double = Double::from_bits(0);
    let one: Double = Double::from_integer(1);
    let lower: Double = if least.is_less(zero) {
        let wanted: Double = least.neg().mul(
            Double::from_integer(105).div(Double::from_integer(100)),
        );
        let bound: Double = if scalable(wanted) {
            nice_upper(wanted, magnitude(wanted))
        } else {
            one
        };
        assert(is_bound(magnitude, depth(least), bound));
        bound.neg()
    } else {
        zero
    };
    if let Some(bound) = fixed_max {
        if bound.is_finite() && zero.is_less(bound) {
            return (lower, bound);
        }
    }
    let wanted: Double = largest.mul(Double::from_integer(11).div(Double::from_integer(10)));
    let upper: Double = if scalable(wanted) {
        nice_upper(wanted, magnitude(wanted))
    } else {
        one
    };
    (lower, upper)
}

/// Whether a power of ten reaches a number: ten times of it are no less.
pub open spec fn reaches(power: Double, value: Double) -> bool {
    power.finite() && !power.negative() && power.size() > 0 && value.value() <= 10 * power.value()
}

/// The round number above a value with some room is no less than the value.
proof fn lemma_round_number_covers(value: Double, factor: Double, power: Double)
    requires
        value.finite(),
        !value.negative(),
        leaves_room(factor),
        value.product(factor).finite(),
        is_scalable(value.product(factor)) ==> reaches(power, value.product(factor)),
    ensures
        value.at_most(round_number(value.product(factor), power)),
{
    let wanted = value.product(factor);
    lemma_step(1);
    if value.size() >= HIDDEN {
        lemma_product_leaves_room(value, factor);
        lemma_units_increase(0, value.size());
        let fraction = wanted.quotient(power);
        if fraction.at_most(Double::integer(1)) {
            lemma_quotient_within_step(wanted, power, 1);
            lemma_multiple_covers(value, 1, power);
        } else if fraction.at_most(Double::integer(2)) {
            lemma_quotient_within_step(wanted, power, 2);
            lemma_multiple_covers(value, 2, power);
        } else if fraction.at_most(Double::integer(5)) {
            lemma_quotient_within_step(wanted, power, 5);
            lemma_multiple_covers(value, 5, power);
        } else {
            lemma_multiple_covers(value, 10, power);
        }
    }
}

/// Whether the powers of ten that are found for numbers reach them.
pub open spec fn always_reaches<F: Fn(Double) -> Double>(magnitude: F) -> bool {
    forall|value: Double, power: Double|
        is_scalable(value) && #[trigger] call_ensures(magnitude, (value,), power) ==> reaches(
            power,
            value,
        )
}

proof fn lemma_bound_covers<F: Fn(Double) -> Double>(
    magnitude: F,
    value: Double,
    factor: Double,
    bound: Double,
)
    requires
        always_reaches(magnitude),
        value.finite(),
        !value.negative(),
        leaves_room(factor),
        value.product(factor).finite(),
        is_bound(magnitude, value.product(factor), bound),
    ensures
        value.at_most(bound),
{
    let wanted = value.product(factor);
    if is_scalable(wanted) {
        let power = choose|power: Double|
            call_ensures(magnitude, (wanted,), power) && bound == #[trigger] round_number(
                wanted,
                power,
            );
        lemma_round_number_covers(value, factor, power);
    } else {
        lemma_round_number_covers(value, factor, Double::zero());
    }
}

proof fn lemma_upper_end_covers<F: Fn(Double) -> Double>(
    magnitude: F,
    largest: Double,
    upper: Double,
)
    requires
        always_reaches(magnitude),
        largest.finite(),
        !largest.negative(),
        headroom(largest).finite(),
        is_bound(magnitude, headroom(largest), upper),
    ensures
        largest.at_most(upper),
{
    lemma_factors();
    lemma_bound_covers(
        magnitude,
        largest,
        Double::integer(11).quotient(Double::integer(10)),
        upper,
    );
}

proof fn lemma_depth_covers<F: Fn(Double) -> Double>(magnitude: F, least: Double, bound: Double)
    requires
        always_reaches(magnitude),
        least.finite(),
        least.negative(),
        depth(least).finite(),
        is_bound(magnitude, depth(least), bound),
    ensures
        least.opposite().at_most(bound),
{
    lemma_factors();
    lemma_bound_covers(
        magnitude,
        least.opposite(),
        Double::integer(105).quotient(Double::integer(100)),
        bound,
    );
}

proof fn lemma_opposites(a: Double, b: Double)
    requires
        a.opposite().at_most(b),
    ensures
        b.opposite().at_most(a),
{
}

proof fn lemma_lower_end_covers<F: Fn(Double) -> Double>(magnitude: F, least: Double, lower: Double)
    requires
        always_reaches(magnitude),
        least.finite(),
        depth(least).finite(),
        is_lower_end(magnitude, least, lower),
    ensures
        lower.at_most(least),
{
    if least.less(Double::zero()) {
        let bound = choose|bound: Double| #[trigger]
            is_bound(magnitude, depth(least), bound) && lower == bound.opposite();
        lemma_depth_covers(magnitude, least, bound);
        lemma_opposites(least, bound);
    }
}

/// Every value that is drawn lies between the ends of an axis that is not fixed,
/// where the powers of ten that it is made of reach what they are found for. Left out
/// are values so large that the room above or below them is no number any more.
pub proof fn lemma_axis_holds_every_value<F: Fn(Double) -> Double>(
    magnitude: F,
    series: Seq<SeriesView>,
    i: int,
    j: int,
    lower: Double,
    upper: Double,
)
    requires
        always_reaches(magnitude),
        0 <= i < series.len(),
        0 <= j < series[i].points.len(),
        is_valid(series[i].points[j]),
        depth(extent(series).0).finite(),
        headroom(extent(series).1).finite(),
        is_lower_end(magnitude, extent(series).0, lower),
        is_bound(magnitude, headroom(extent(series).1), upper),
    ensures
        spans((lower, upper), series[i].points[j].1),
{
    lemma_extent_holds_every_value(series, i, j);
    lemma_extent_is_finite(series);
    lemma_upper_end_covers(magnitude, extent(series).1, upper);
    lemma_lower_end_covers(magnitude, extent(series).0, lower);
}

// ---------------------------------------------------------------------------
// Values as text
// ---------------------------------------------------------------------------

/// An amount of bytes in the first binary unit that it does not fill.
pub open spec fn bytes_text(value: Double, per_second: bool) -> Seq<char> {
    amount_text(value, 0, 6) + if per_second {
        "/s"@
    } else {
        ""@
    }
}

fn format_bytes(value: Double, per_second: bool) -> (result: String)
    ensures
        result@ == bytes_text(value, per_second),
{
    let mut text: String = String::new();
    push_amount(&mut text, value, 0, 6);
    assert(text@ =~= amount_text(value, 0, 6));
    text.append(
        if per_second {
            "/s"
        } else {
            ""
        },
    );
    text
}

/// What stands for a value that is missing.
pub open spec fn unavailable() -> Seq<char> {
    "Unavailable"@
}

/// A value with its unit.
pub open spec fn value_text(value: Double, unit: Seq<char>) -> Seq<char> {
    if !value.finite() {
        unavailable()
    } else if unit == "B/s"@ || unit == "bytes/s"@ {
        bytes_text(value, true)
    } else if unit == "B"@ || unit == "bytes"@ {
        bytes_text(value, false)
    } else if unit == "%"@ {
        value.fixed(1) + "%"@
    } else if unit == "MHz"@ {
        if Double::integer(1000).at_most(value.magnitude()) {
            value.quotient(Double::integer(1000)).fixed(2) + " GHz"@
        } else {
            value.fixed(0) + " MHz"@
        }
    } else if unit == "GHz"@ {
        value.fixed(2) + " GHz"@
    } else if unit == "°C"@ {
        value.fixed(1) + " °C"@
    } else if unit == ""@ {
        value.fixed(1)
    } else {
        value.fixed(1) + " "@ + unit
    }
}

/// A value with its unit.
pub fn format_value(value: Double, unit: &str) -> (result: String)
    ensures
        result@ == value_text(value, unit@),
{
    if !value.is_finite() {
        "Unavailable".to_owned()
    } else if same_text(unit, "B/s") || same_text(unit, "bytes/s") {
        format_bytes(value, true)
    } else if same_text(unit, "B") || same_text(unit, "bytes") {
        format_bytes(value, false)
    } else if same_text(unit, "%") {
        fixed_text(value, 1, "%")
    } else if same_text(unit, "MHz") {
        let thousand: Double = Double::from_integer(1000);
        if thousand.is_at_most(value.abs()) {
            fixed_text(value.div(thousand), 2, " GHz")
        } else {
            fixed_text(value, 0, " MHz")
        }
    } else if same_text(unit, "GHz") {
        fixed_text(value, 2, " GHz")
    } else if same_text(unit, "°C") {
        fixed_text(value, 1, " °C")
    } else if same_text(unit, "") {
        let mut text: String = String::new();
        push_fixed(&mut text, value, 1);
        assert(text@ =~= value.fixed(1));
        text
    } else {
        let mut text: String = fixed_text(value, 1, " ");
        text.append(unit);
        text
    }
}

/// The name of a chart: those of its series.
pub open spec fn names_of(series: Seq<SeriesView>) -> Seq<char> {
    joined(series.map_values(|one: SeriesView| one.name), ", "@)
}

/// The name of a chart: those of its series.
pub fn chart_name(series: &[Series]) -> (result: String)
    ensures
        result@ == names_of(views(series@)),
{
    let ghost all = views(series@).map_values(|one: SeriesView| one.name);
    let mut names: Vec<String> = Vec::new();
    let mut i: usize = 0;
    assert(views(names@) =~= all.take(0));
    while i < series.len()
        invariant
            i <= series@.len(),
            all == views(series@).map_values(|one: SeriesView| one.name),
            views(names@) == all.take(i as int),
        decreases series@.len() - i,
    {
        let name: String = series[i].name.clone();
        proof {
            lemma_views_push(names@, name);
            assert(all[i as int] == name@);
            assert(all.take(i + 1) =~= all.take(i as int).push(name@));
        }
        names.push(name);
        i += 1;
    }
    assert(all.take(i as int) =~= all);
    join(&names, ", ")
}

/// The name of a series with its newest value.
pub open spec fn legend_of(series: SeriesView, unit: Seq<char>) -> Seq<char> {
    series.name + ": "@ + match latest_of(series.points) {
        Some(point) => value_text(point.1, unit),
        None => unavailable(),
    }
}

/// The name of a series with its newest value.
pub fn legend(series: &Series, unit: &str) -> (result: String)
    ensures
        result@ == legend_of(series@, unit@),
{
    let mut text: String = series.name.clone();
    text.append(": ");
    match latest_point(series) {
        Some(point) => text.append(format_value(point[1], unit).as_str()),
        None => text.append("Unavailable"),
    }
    text
}

/// The least and the largest value of a series.
pub open spec fn range_text(series: SeriesView, unit: Seq<char>) -> Option<Seq<char>> {
    match range_of(series.points) {
        Some((least, largest)) => Some(
            "min "@ + value_text(least, unit) + " · max "@ + value_text(largest, unit),
        ),
        None => None,
    }
}

/// The least and the largest value of a series.
pub fn range_label(series: &Series, unit: &str) -> (result: Option<String>)
    ensures
        optional_view(result) == range_text(series@, unit@),
{
    match range(&series.points) {
        Some((least, largest)) => {
            let mut text: String = "min ".to_owned();
            text.append(format_value(least, unit).as_str());
            text.append(" · max ");
            text.append(format_value(largest, unit).as_str());
            Some(text)
        },
        None => None,
    }
}

/// The values that are written beside an axis: its upper end, its middle and its
/// lower end.
pub open spec fn axis_of(lower: Double, upper: Double, unit: Seq<char>) -> Seq<Seq<char>> {
    seq![
        value_text(upper, unit),
        value_text(lower.sum(upper).quotient(Double::integer(2)), unit),
        value_text(lower, unit),
    ]
}

/// The values that are written beside an axis: its upper end, its middle and its
/// lower end.
pub fn axis_labels(lower: Double, upper: Double, unit: &str) -> (result: Vec<String>)
    ensures
        views(result@) == axis_of(lower, upper, unit@),
{
    let result: Vec<String> = vec![
        format_value(upper, unit),
        format_value(lower.add(upper).div(Double::from_integer(2)), unit),
        format_value(lower, unit),
    ];
    assert(views(result@) =~= axis_of(lower, upper, unit@));
    result
}

// ---------------------------------------------------------------------------
// Places on the plot
// ---------------------------------------------------------------------------

/// How far a time lies from the left edge of the plot, as a share of its width.
pub open spec fn share_across(seconds: Double) -> Double {
    seconds.sum(Double::integer(60)).quotient(Double::integer(60))
}

/// How far a value lies from the lower edge of the plot, as a share of its height.
pub open spec fn share_up(value: Double, lower: Double, upper: Double) -> Double {
    value.difference(lower).quotient(upper.difference(lower))
}

/// The time at a share of the width of the plot.
pub open spec fn seconds_across(share: Double) -> Double {
    share.product(Double::integer(60)).difference(Double::integer(60))
}

/// How far a point lies from the left and the lower edge of the plot, as shares of
/// its width and height.
pub fn position(point: [Double; 2], lower: Double, upper: Double) -> (result: (Double, Double))
    ensures
        result.0 == share_across(pair(point).0),
        result.1 == share_up(pair(point).1, lower, upper),
{
    let minute: Double = Double::from_integer(60);
    (point[0].add(minute).div(minute), point[1].sub(lower).div(upper.sub(lower)))
}

/// The time at a share of the width of the plot.
pub fn time_at(share: Double) -> (result: Double)
    ensures
        result == seconds_across(share),
{
    let minute: Double = Double::from_integer(60);
    share.mul(minute).sub(minute)
}

// ---------------------------------------------------------------------------
// Nearest samples
// ---------------------------------------------------------------------------

/// How far apart two times are.
pub open spec fn distance(a: Double, b: Double) -> Double {
    a.difference(b).magnitude()
}

/// How far apart two times are.
pub fn apart(a: Double, b: Double) -> (result: Double)
    ensures
        result == distance(a, b),
{
    a.sub(b).abs()
}

/// The first of the points in the window that are nearest to a time.
pub open spec fn nearest_point(points: Seq<(Double, Double)>, seconds: Double) -> Option<
    (Double, Double),
>
    decreases points.len(),
{
    if points.len() == 0 {
        None
    } else {
        let before = nearest_point(points.drop_last(), seconds);
        let point = points.last();
        if !is_in_window(point.0) {
            before
        } else {
            match before {
                Some(nearest) => if distance(point.0, seconds).total_rank() < distance(
                    nearest.0,
                    seconds,
                ).total_rank() {
                    Some(point)
                } else {
                    before
                },
                None => Some(point),
            }
        }
    }
}

fn find_nearest(points: &Vec<[Double; 2]>, seconds: Double) -> (result: Option<[Double; 2]>)
    ensures
        optional_pair(result) == nearest_point(pairs(points@), seconds),
{
    let ghost all = pairs(points@);
    let mut nearest: Option<[Double; 2]> = None;
    let mut i: usize = 0;
    while i < points.len()
        invariant
            i <= points@.len(),
            all == pairs(points@),
            optional_pair(nearest) == nearest_point(all.take(i as int), seconds),
        decreases points@.len() - i,
    {
        let point: [Double; 2] = points[i];
        assert(all[i as int] == pair(point));
        assert(all.take(i + 1).drop_last() =~= all.take(i as int));
        if in_window(point[0]) {
            nearest = match nearest {
                Some(known) => if apart(point[0], seconds).stands_before(
                    apart(known[0], seconds),
                ) {
                    Some(point)
                } else {
                    Some(known)
                },
                None => Some(point),
            };
        }
        i += 1;
    }
    assert(all.take(i as int) =~= all);
    nearest
}

/// How long ago a time was.
pub open spec fn age(seconds: Double) -> Double {
    seconds.opposite().maximum(Double::zero())
}

/// What a series says of a time: the value of its nearest sample, missing or not.
pub open spec fn sample_text(series: SeriesView, seconds: Double, unit: Seq<char>) -> Seq<char> {
    match nearest_point(series.points, seconds) {
        Some(point) => series.name + ": "@ + value_text(point.1, unit) + " ("@ + age(
            point.0,
        ).fixed(1) + "s ago)"@,
        None => series.name + ": "@ + unavailable(),
    }
}

fn sample_label(series: &Series, seconds: Double, unit: &str) -> (result: String)
    ensures
        result@ == sample_text(series@, seconds, unit@),
{
    let mut text: String = series.name.clone();
    text.append(": ");
    match find_nearest(&series.points, seconds) {
        Some(point) => {
            text.append(format_value(point[1], unit).as_str());
            text.append(" (");
            push_fixed(&mut text, point[0].neg().max(Double::from_bits(0)), 1);
            text.append("s ago)");
        },
        None => text.append("Unavailable"),
    }
    text
}

/// How long ago a time was, in words.
pub open spec fn ago_text(seconds: Double) -> Seq<char> {
    age(seconds).fixed(1) + " seconds ago"@
}

/// How long ago a time was, in words.
pub fn ago(seconds: Double) -> (result: String)
    ensures
        result@ == ago_text(seconds),
{
    fixed_text(seconds.neg().max(Double::from_bits(0)), 1, " seconds ago")
}

/// What each series says of a time.
pub open spec fn samples_text(
    series: Seq<SeriesView>,
    seconds: Double,
    unit: Seq<char>,
) -> Seq<Seq<char>> {
    series.map_values(|one: SeriesView| sample_text(one, seconds, unit))
}

/// What each series says of a time.
pub fn sample_labels(series: &[Series], seconds: Double, unit: &str) -> (result: Vec<String>)
    ensures
        views(result@) == samples_text(views(series@), seconds, unit@),
{
    let ghost all = samples_text(views(series@), seconds, unit@);
    let mut labels: Vec<String> = Vec::new();
    let mut i: usize = 0;
    assert(views(labels@) =~= all.take(0));
    while i < series.len()
        invariant
            i <= series@.len(),
            all == samples_text(views(series@), seconds, unit@),
            views(labels@) == all.take(i as int),
        decreases series@.len() - i,
    {
        let label: String = sample_label(&series[i], seconds, unit);
        proof {
            lemma_views_push(labels@, label);
            assert(all[i as int] == label@);
            assert(all.take(i + 1) =~= all.take(i as int).push(label@));
        }
        labels.push(label);
        i += 1;
    }
    assert(all.take(i as int) =~= all);
    labels
}

/// Of the points in the window, none is nearer to a time than the nearest.
pub proof fn lemma_nearest_point(points: Seq<(Double, Double)>, seconds: Double)
    ensures
        match nearest_point(points, seconds) {
            Some(nearest) => {
                &&& points.contains(nearest)
                &&& is_in_window(nearest.0)
                &&& forall|i: int|
                    0 <= i < points.len() && is_in_window((#[trigger] points[i]).0) ==> distance(
                        nearest.0,
                        seconds,
                    ).total_rank() <= distance(points[i].0, seconds).total_rank()
            },
            None => forall|i: int|
                0 <= i < points.len() ==> !is_in_window((#[trigger] points[i]).0),
        },
    decreases points.len(),
{
    if points.len() > 0 {
        let rest = points.drop_last();
        lemma_nearest_point(rest, seconds);
        assert(forall|i: int| 0 <= i < rest.len() ==> rest[i] == #[trigger] points[i]);
        assert(points[points.len() - 1] == points.last());
        match nearest_point(rest, seconds) {
            Some(nearest) => {
                let k = choose|k: int| 0 <= k < rest.len() && rest[k] == nearest;
                assert(points[k] == nearest);
            },
            None => {},
        }
    }
}

// ---------------------------------------------------------------------------
// Laws of what is drawn
// ---------------------------------------------------------------------------

/// The window reaches from a minute ago to now, and a thousandth of a second beyond.
pub proof fn lemma_window_in_seconds(seconds: Double)
    requires
        seconds.finite(),
    ensures
        ({
            let one = pow2(FINEST as nat);
            &&& -60 * one <= seconds.value() <= 0 ==> is_in_window(seconds)
            &&& is_in_window(seconds) ==> -60 * one <= seconds.value() && 999 * seconds.value()
                <= one
        }),
{
    let one = pow2(FINEST as nat);
    let limit = tolerance();
    lemma_small_integer(60);
    lemma_quotient_of_integers(1, 1000);
    lemma_powers();
    lemma_pow2_strictly_increases(52, FINEST as nat);
    lemma2_to64();
    lemma_pow2_strictly_increases(64, FINEST as nat);
    lemma_order_is_numeric(Double::integer(60).opposite(), seconds);
    lemma_order_is_numeric(seconds, limit);
    assert(Double::integer(60).opposite().value() == -(60 * one));
    assert(999 * limit.value() <= one);
}

/// The least and the largest value of a list are drawn in it, and every other one lies between
/// them.
pub proof fn lemma_range(points: Seq<(Double, Double)>, i: int)
    ensures
        match range_of(points) {
            Some((least, largest)) => {
                &&& least.finite() && largest.finite()
                &&& exists|k: int|
                    0 <= k < points.len() && is_valid(#[trigger] points[k]) && points[k].1 == least
                &&& exists|k: int|
                    0 <= k < points.len() && is_valid(#[trigger] points[k]) && points[k].1
                        == largest
                &&& 0 <= i < points.len() && is_valid(points[i]) ==> least.value()
                    <= points[i].1.value() <= largest.value()
            },
            None => 0 <= i < points.len() ==> !is_valid(points[i]),
        },
    decreases points.len(),
{
    if points.len() > 0 {
        let rest = points.drop_last();
        let last = points.last();
        assert(points[points.len() - 1] == last);
        assert(forall|k: int| 0 <= k < rest.len() ==> rest[k] == #[trigger] points[k]);
        lemma_range(rest, i);
        if let Some((least, largest)) = range_of(rest) {
            let a = choose|k: int|
                0 <= k < rest.len() && is_valid(#[trigger] rest[k]) && rest[k].1 == least;
            let b = choose|k: int|
                0 <= k < rest.len() && is_valid(#[trigger] rest[k]) && rest[k].1 == largest;
            assert(points[a].1 == least && points[b].1 == largest);
            if is_valid(last) {
                lemma_order_is_numeric(least, last.1);
                lemma_order_is_numeric(last.1, least);
                lemma_order_is_numeric(largest, last.1);
                lemma_order_is_numeric(last.1, largest);
                let low = least.minimum(last.1);
                let high = largest.maximum(last.1);
                assert(low.value() <= least.value() && low.value() <= last.1.value());
                assert(high.value() >= largest.value() && high.value() >= last.1.value());
            }
        }
    }
}

/// Whether a value is drawn in a chart.
pub open spec fn is_drawn(series: Seq<SeriesView>, value: Double) -> bool {
    exists|i: int, j: int|
        0 <= i < series.len() && 0 <= j < series[i].points.len() && is_valid(
            #[trigger] series[i].points[j],
        ) && series[i].points[j].1 == value
}

proof fn lemma_widened_is_least(
    range: (Double, Double),
    series: Seq<SeriesView>,
    points: Seq<(Double, Double)>,
)
    ensures
        ({
            let wide = widened(range, points);
            &&& wide.0 == range.0 || exists|j: int|
                0 <= j < points.len() && is_valid(#[trigger] points[j]) && points[j].1 == wide.0
            &&& wide.1 == range.1 || exists|j: int|
                0 <= j < points.len() && is_valid(#[trigger] points[j]) && points[j].1 == wide.1
        }),
    decreases points.len(),
{
    if points.len() > 0 {
        let rest = points.drop_last();
        lemma_widened_is_least(range, series, rest);
        let before = widened(range, rest);
        let wide = widened(range, points);
        assert(points[points.len() - 1] == points.last());
        if before.0 != range.0 {
            let j = choose|j: int|
                0 <= j < rest.len() && is_valid(#[trigger] rest[j]) && rest[j].1 == before.0;
            assert(points[j].1 == before.0 && is_valid(points[j]));
        }
        if before.1 != range.1 {
            let j = choose|j: int|
                0 <= j < rest.len() && is_valid(#[trigger] rest[j]) && rest[j].1 == before.1;
            assert(points[j].1 == before.1 && is_valid(points[j]));
        }
        if wide.0 != before.0 {
            assert(wide.0 == points.last().1);
        }
        if wide.1 != before.1 {
            assert(wide.1 == points.last().1);
        }
    }
}

/// What a chart reaches over is no more than it has to: its ends are zero or drawn.
pub proof fn lemma_extent_is_least(series: Seq<SeriesView>)
    ensures
        extent(series).0 == Double::zero() || is_drawn(series, extent(series).0),
        extent(series).1 == Double::zero() || is_drawn(series, extent(series).1),
    decreases series.len(),
{
    if series.len() > 0 {
        let rest = series.drop_last();
        let points = series.last().points;
        lemma_extent_is_least(rest);
        lemma_widened_is_least(extent(rest), series, points);
        lemma_drawn_before(series, extent(rest).0);
        lemma_drawn_before(series, extent(rest).1);
        assert(series[series.len() - 1] == series.last());
        let wide = extent(series);
        if exists|j: int|
            0 <= j < points.len() && is_valid(#[trigger] points[j]) && points[j].1 == wide.0 {
            let j = choose|j: int|
                0 <= j < points.len() && is_valid(#[trigger] points[j]) && points[j].1 == wide.0;
            assert(is_valid(series[series.len() - 1].points[j]));
        }
        if exists|j: int|
            0 <= j < points.len() && is_valid(#[trigger] points[j]) && points[j].1 == wide.1 {
            let j = choose|j: int|
                0 <= j < points.len() && is_valid(#[trigger] points[j]) && points[j].1 == wide.1;
            assert(is_valid(series[series.len() - 1].points[j]));
        }
    }
}

proof fn lemma_drawn_before(series: Seq<SeriesView>, value: Double)
    requires
        series.len() > 0,
    ensures
        is_drawn(series.drop_last(), value) ==> is_drawn(series, value),
{
    let rest = series.drop_last();
    if is_drawn(rest, value) {
        let (i, j) = choose|i: int, j: int|
            0 <= i < rest.len() && 0 <= j < rest[i].points.len() && is_valid(
                #[trigger] rest[i].points[j],
            ) && rest[i].points[j].1 == value;
        assert(is_valid(series[i].points[j]));
    }
}

proof fn lemma_open_path_behind(a: Seq<(Double, Double)>, gap: (Double, Double), b: Seq<
    (Double, Double),
>)
    requires
        !is_valid(gap),
    ensures
        open_path(a.push(gap) + b) == open_path(b),
        closed_paths(a.push(gap) + b) == paths_of(a) + closed_paths(b),
    decreases b.len(),
{
    let all = a.push(gap) + b;
    if b.len() == 0 {
        assert(all =~= a.push(gap));
        assert(all.drop_last() =~= a);
        assert(paths_of(a) + closed_paths(b) =~= paths_of(a));
    } else {
        assert(all.drop_last() =~= a.push(gap) + b.drop_last());
        assert(all.last() == b.last());
        lemma_open_path_behind(a, gap, b.drop_last());
        assert(closed_paths(all) =~= paths_of(a) + closed_paths(b));
    }
}

/// A point that is not drawn parts the lines before it from those behind it, and nothing else
/// does.
pub proof fn lemma_gaps_part_lines(a: Seq<(Double, Double)>, gap: (Double, Double), b: Seq<
    (Double, Double),
>)
    ensures
        !is_valid(gap) ==> paths_of(a.push(gap) + b) == paths_of(a) + paths_of(b),
        a.len() > 0 && (forall|i: int| 0 <= i < a.len() ==> is_valid(#[trigger] a[i])) ==> paths_of(
            a,
        ) == seq![a],
{
    if !is_valid(gap) {
        lemma_open_path_behind(a, gap, b);
        assert(paths_of(a.push(gap) + b) =~= paths_of(a) + paths_of(b));
    }
    if a.len() > 0 && (forall|i: int| 0 <= i < a.len() ==> is_valid(#[trigger] a[i])) {
        lemma_unbroken(a);
        assert(paths_of(a) =~= seq![a]);
    }
}

proof fn lemma_unbroken(a: Seq<(Double, Double)>)
    requires
        forall|i: int| 0 <= i < a.len() ==> is_valid(#[trigger] a[i]),
    ensures
        open_path(a) == a,
        closed_paths(a).len() == 0,
    decreases a.len(),
{
    if a.len() > 0 {
        let rest = a.drop_last();
        assert(is_valid(a[a.len() - 1]));
        assert(forall|i: int| 0 <= i < rest.len() ==> rest[i] == #[trigger] a[i]);
        lemma_unbroken(rest);
        assert(rest.push(a.last()) =~= a);
    } else {
        assert(open_path(a) =~= a);
    }
}

// ---------------------------------------------------------------------------
// Laws of the axis
// ---------------------------------------------------------------------------

/// A step is the least of one, two, five and ten that is not below a fraction, and ten where
/// none is.
pub proof fn lemma_step_above(fraction: Double)
    requires
        fraction.finite(),
    ensures
        ({
            let one = pow2(FINEST as nat);
            let step = step_above(fraction).value();
            &&& step == one || step == 2 * one || step == 5 * one || step == 10 * one
            &&& fraction.value() <= 10 * one ==> fraction.value() <= step
            &&& step == 2 * one ==> one < fraction.value()
            &&& step == 5 * one ==> 2 * one < fraction.value()
            &&& step == 10 * one ==> 5 * one < fraction.value()
        }),
{
    lemma_pow2_pos(FINEST as nat);
    lemma_small_integer(1);
    lemma_small_integer(2);
    lemma_small_integer(5);
    lemma_small_integer(10);
    lemma_order_is_numeric(fraction, Double::integer(1));
    lemma_order_is_numeric(fraction, Double::integer(2));
    lemma_order_is_numeric(fraction, Double::integer(5));
}

/// A number times a quotient of two integers that is two at most, but for rounding.
proof fn lemma_times_ratio(value: Double, n: nat, d: nat)
    requires
        value.finite(),
        value.value() >= 0,
        0 < n <= 2 * d,
        0 < d <= 128,
        value.product(Double::integer(n).quotient(Double::integer(d))).finite(),
    ensures
        ({
            let product = value.product(Double::integer(n).quotient(Double::integer(d)));
            &&& differ_by(product.value() * d, value.value() * n, 32 * (value.value() + HIDDEN) * d)
        }),
{
    let one = pow2(FINEST as nat) as int;
    let ratio = Double::integer(n).quotient(Double::integer(d));
    let product = value.product(ratio);
    let q = ratio.value();
    let v = value.value();
    let p = product.value();
    lemma_powers();
    lemma_pow2_strictly_increases(52, FINEST as nat);
    lemma_quotient_of_integers(n, d);
    lemma_product_is_rounded(value, ratio);
    assert(n * one <= (2 * d) * one) by (nonlinear_arith)
        requires
            n <= 2 * d,
            one > 0,
    ;
    assert(q <= 3 * one) by (nonlinear_arith)
        requires
            PRECISION * (q * d - n * one) <= 4 * (q + HIDDEN) * d,
            n * one <= (2 * d) * one,
            0 < d,
            HIDDEN <= one,
            PRECISION >= 16,
    ;
    lemma_ratio_error(v, p, q, n as int, d as int, one);
}

proof fn lemma_ratio_error(v: int, p: int, q: int, n: int, d: int, one: int)
    requires
        v >= 0,
        0 <= q <= 3 * one,
        0 < d <= 128,
        0 < n,
        one >= HIDDEN,
        is_rounded(p, v * q, one as nat),
        differ_by(q * d, n * one, 4 * (q + HIDDEN) * d),
    ensures
        differ_by(p * d, v * n, 32 * (v + HIDDEN) * d),
{
    let h = HIDDEN as int;
    lemma_error_times(p * one, v * q, (abs(p) + h) * one, d);
    lemma_error_times(q * d, n * one, 4 * (q + h) * d, v);
    assert((v * q) * d == (q * d) * v) by (nonlinear_arith);
    assert(v * q <= 3 * (v * one)) by (nonlinear_arith)
        requires
            q <= 3 * one,
            v >= 0,
    ;
    assert(v * q >= 0) by (nonlinear_arith)
        requires
            v >= 0,
            q >= 0,
    ;
    assert(abs(p) <= 4 * v + h) by (nonlinear_arith)
        requires
            PRECISION * abs(p * one - v * q) <= (abs(p) + h) * one,
            0 <= v * q <= 3 * (v * one),
            one > 0,
            v >= 0,
            h == HIDDEN,
            PRECISION == 2 * HIDDEN,
            p * one - v * q <= abs(p * one - v * q),
            v * q - p * one <= abs(p * one - v * q),
            abs(p) == p || abs(p) == -p,
            abs(p) >= 0,
    ;
    let parts = 32 * (v + h) * d;
    assert(((abs(p) + h) * one) * d <= (4 * v + 2 * h) * one * d) by (nonlinear_arith)
        requires
            abs(p) <= 4 * v + h,
            one > 0,
            d > 0,
    ;
    assert((4 * (q + h) * d) * v <= 16 * v * one * d) by (nonlinear_arith)
        requires
            q + h <= 4 * one,
            d > 0,
            v >= 0,
    ;
    assert((4 * v + 2 * h) * one * d + 16 * v * one * d <= parts * one) by (nonlinear_arith)
        requires
            parts == 32 * (v + h) * d,
            v >= 0,
            h >= 0,
            one > 0,
            d > 0,
    ;
    assert((p * one) * d == (p * d) * one) by (nonlinear_arith);
    assert((n * one) * v == (v * n) * one) by (nonlinear_arith);
    assert(differ_by((p * d) * one, (v * n) * one, parts * one));
    lemma_error_over(p * d, v * n, parts, one);
}

/// Above the largest value an axis leaves room of a tenth of it, but for rounding.
pub proof fn lemma_headroom_is_a_tenth(largest: Double)
    requires
        largest.finite(),
        largest.value() >= 0,
        headroom(largest).finite(),
    ensures
        differ_by(
            headroom(largest).value() * 10,
            largest.value() * 11,
            32 * (largest.value() + HIDDEN) * 10,
        ),
{
    lemma_times_ratio(largest, 11, 10);
}

/// Below the least value an axis leaves room of a twentieth of it, but for rounding.
pub proof fn lemma_depth_is_a_twentieth(least: Double)
    requires
        least.finite(),
        least.value() <= 0,
        depth(least).finite(),
    ensures
        differ_by(
            depth(least).value() * 100,
            -least.value() * 105,
            32 * (-least.value() + HIDDEN) * 100,
        ),
{
    lemma_times_ratio(least.opposite(), 105, 100);
}

/// The middle of an axis is half of the sum of its ends, but for rounding.
pub proof fn lemma_middle_of_an_axis(lower: Double, upper: Double, unit: Seq<char>) -> (middle:
    Double)
    requires
        lower.finite(),
        upper.finite(),
        lower.sum(upper).finite(),
    ensures
        axis_of(lower, upper, unit) == seq![
            value_text(upper, unit),
            value_text(middle, unit),
            value_text(lower, unit),
        ],
        middle.finite(),
        is_close(lower.sum(upper).value(), lower.value() + upper.value()),
        differ_by(middle.value() * 2, lower.sum(upper).value(), (abs(middle.value()) + HIDDEN) * 2),
{
    lemma_sum_is_close(lower, upper);
    lemma_parts_of_a_number(lower.sum(upper), 2);
    lower.sum(upper).quotient(Double::integer(2))
}

// ---------------------------------------------------------------------------
// Laws of the plot
// ---------------------------------------------------------------------------

/// Sixty times the share of the width at which a time is drawn are the seconds from the start
/// of the window to it, but for rounding.
pub proof fn lemma_share_across(seconds: Double)
    requires
        seconds.finite(),
        seconds.sum(Double::integer(60)).finite(),
    ensures
        ({
            let share = share_across(seconds);
            let moved = seconds.sum(Double::integer(60)).value();
            &&& share.finite()
            &&& is_close(moved, seconds.value() + 60 * pow2(FINEST as nat))
            &&& differ_by(share.value() * 60, moved, (abs(share.value()) + HIDDEN) * 60)
        }),
{
    lemma_small_integer(60);
    lemma_sum_is_close(seconds, Double::integer(60));
    lemma_parts_of_a_number(seconds.sum(Double::integer(60)), 60);
}

/// The lower end of an axis is drawn at the lower edge and the upper end at the upper edge, and
/// what lies between them lies between the edges.
pub proof fn lemma_share_up(value: Double, lower: Double, upper: Double)
    requires
        value.finite(),
        lower.finite(),
        upper.finite(),
        lower.value() <= value.value() <= upper.value(),
        lower.value() < upper.value(),
        upper.difference(lower).finite(),
    ensures
        ({
            let one = pow2(FINEST as nat) as int;
            let share = share_up(value, lower, upper);
            &&& share.finite()
            &&& 0 <= share.value() <= one
            &&& value.value() == lower.value() ==> share.value() == 0
            &&& value.value() == upper.value() ==> share.value() == one
            &&& differ_by(
                share.value() * (upper.value() - lower.value()),
                (value.value() - lower.value()) * one,
                8 * one * (upper.value() - lower.value()),
            )
        }),
{
    lemma_way(lower, upper, value);
    lemma_share_of_way(
        value.difference(lower),
        upper.difference(lower),
        value.value() - lower.value(),
        upper.value() - lower.value(),
    );
}

/// The time at a share of the width is so much of a minute behind the start of the window, but
/// for rounding.
pub proof fn lemma_seconds_across(share: Double)
    requires
        share.finite(),
        share.product(Double::integer(60)).finite(),
        seconds_across(share).finite(),
    ensures
        ({
            let one = pow2(FINEST as nat);
            let moved = share.product(Double::integer(60)).value();
            &&& is_rounded(moved, share.value() * (60 * one), one)
            &&& is_close(seconds_across(share).value(), moved - 60 * one)
        }),
{
    lemma_small_integer(60);
    lemma_product_is_rounded(share, Double::integer(60));
    lemma_difference_is_close(share.product(Double::integer(60)), Double::integer(60));
}

/// How long ago a time was is the time before now, and nothing for what is to come.
pub proof fn lemma_age(seconds: Double)
    requires
        seconds.finite(),
    ensures
        age(seconds).finite(),
        age(seconds).value() == if seconds.value() < 0 {
            -seconds.value()
        } else {
            0
        },
{
    assert(units(0) == 0);
    lemma_order_is_numeric(seconds.opposite(), Double::zero());
    lemma_order_is_numeric(Double::zero(), seconds.opposite());
}

/// What is written for a value in each unit: the number, rounded to the places of the unit, and
/// the unit behind it. A clock from 1000 MHz on is written in GHz, bytes are written in a
/// binary unit.
pub proof fn lemma_values_have_units(value: Double)
    requires
        value.finite(),
    ensures
        value_text(value, "%"@) == value.fixed(1) + "%"@,
        value_text(value, "GHz"@) == value.fixed(2) + " GHz"@,
        value_text(value, "°C"@) == value.fixed(1) + " °C"@,
        value_text(value, ""@) == value.fixed(1),
        value_text(value, "B"@) == amount_text(value, 0, 6) + ""@,
        value_text(value, "B/s"@) == amount_text(value, 0, 6) + "/s"@,
        abs(value.value()) < 1000 * pow2(FINEST as nat) ==> value_text(value, "MHz"@)
            == value.fixed(0) + " MHz"@,
        abs(value.value()) >= 1000 * pow2(FINEST as nat) ==> value_text(value, "MHz"@)
            == value.quotient(Double::integer(1000)).fixed(2) + " GHz"@,
        writes_number(value.fixed(0), value, 0),
        writes_number(value.fixed(1), value, 1),
        writes_number(value.fixed(2), value, 2),
        differ_by(
            value.quotient(Double::integer(1000)).value() * 1000,
            value.value(),
            (abs(value.quotient(Double::integer(1000)).value()) + HIDDEN) * 1000,
        ),
{
    reveal_strlit("%");
    reveal_strlit("GHz");
    reveal_strlit("MHz");
    reveal_strlit("°C");
    reveal_strlit("");
    reveal_strlit("B");
    reveal_strlit("B/s");
    reveal_strlit("bytes");
    reveal_strlit("bytes/s");
    assert("%"@[0] == '%' && "GHz"@[0] == 'G' && "MHz"@[0] == 'M' && "°C"@[0] == '°');
    assert("B"@[0] == 'B' && "B/s"@[0] == 'B' && "bytes"@[0] == 'b' && "bytes/s"@[0] == 'b');
    assert("B"@.len() == 1 && "B/s"@.len() == 3 && ""@.len() == 0);
    lemma_fixed_writes_the_number(value, 0);
    lemma_fixed_writes_the_number(value, 1);
    lemma_fixed_writes_the_number(value, 2);
    lemma_parts_of_a_number(value, 1000);
    lemma_small_integer(1000);
    lemma_order_is_numeric(Double::integer(1000), value.magnitude());
    assert(value.magnitude().value() == abs(value.value()));
}

/// A legend tells the newest value of its series, a range its least and largest one.
pub proof fn lemma_legend_is_of_the_newest(series: SeriesView, unit: Seq<char>, k: int)
    requires
        0 <= k < series.points.len(),
        is_in_window(series.points[k].0),
        forall|i: int|
            0 <= i < series.points.len() && i != k && is_in_window((#[trigger] series.points[i]).0)
                ==> series.points[i].0.value() < series.points[k].0.value(),
    ensures
        legend_of(series, unit) == series.name + ": "@ + value_text(series.points[k].1, unit),
{
    let points = series.points;
    lemma_latest_is_newest(points);
    assert(latest_of(points) is Some);
    let latest = latest_of(points)->0;
    let i = choose|i: int| 0 <= i < points.len() && points[i] == latest;
    if i != k {
        assert(points[i].0.value() < points[k].0.value());
        lemma_order_is_numeric(points[i].0, points[k].0);
        assert(points[k].0.total_rank() <= latest.0.total_rank());
    }
}

} // verus!
