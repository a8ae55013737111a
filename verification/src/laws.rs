//! What holds of ticks and spacings for every range and every target.

use vstd::prelude::*;
use crate::axes::{is_finest_fit, lemma_tick_in_range, tick_at_max, tick_at_min, Tick, Ticker};
use crate::multiples::{
    lemma_multiples_between_is_steps,
    lemma_multiples_between_scale,
    steps_between,
};
use crate::powers::pow10;
use crate::range::{Interval, Range};
use crate::spacing::{NiceNumber, Spacing};

verus! {

/// How many of the units a tick's value is written in make one grid unit.
pub open spec fn units_per_coordinate(tick: Tick) -> int {
    if tick.value.exp < 0 {
        pow10((-tick.value.exp) as nat)
    } else {
        1
    }
}

/// The number of ticks in a range is the number a reader finds who starts at
/// the first tick and adds the spacing until the last tick is passed.
pub proof fn lemma_count_is_count_by_steps(range: Range, spacing: Spacing)
    requires
        range.wf(),
        spacing.wf(),
    ensures
        spacing@.tick_count(range@) == steps_between(
            spacing@.next_tick(range@.min),
            spacing@.prev_tick(range@.max),
            spacing@.step(),
        ),
{
    spacing@.lemma_positive();
    let refine = spacing@.refine();
    let lo = range@.min;
    let hi = range@.max;
    assert(lo * refine <= hi * refine) by (nonlinear_arith)
        requires
            lo <= hi,
            refine >= 1,
    ;
    lemma_multiples_between_is_steps(lo * refine, hi * refine, spacing@.step());
}

/// A range and a target have at most one finest fitting spacing.
pub proof fn lemma_finest_fit_unique(range: Interval, target: int, a: NiceNumber, b: NiceNumber)
    requires
        is_finest_fit(range, target, a),
        is_finest_fit(range, target, b),
    ensures
        a == b,
{
    if a.rank() < b.rank() {
        assert(a.tick_count(range) > target);
    } else if b.rank() < a.rank() {
        assert(b.tick_count(range) > target);
    } else {
        a.lemma_rank_injective(b);
    }
}

/// A range and a target have at most one power of ten that is just too
/// fine: one that puts too many ticks into the range while ten times the
/// power puts few enough.
pub proof fn lemma_too_fine_power_unique(
    range: Interval,
    target: int,
    a: NiceNumber,
    b: NiceNumber,
)
    requires
        target >= 0,
        a.mantissa == 1,
        b.mantissa == 1,
        a.tick_count(range) > target >= a.times_ten().tick_count(range),
        b.tick_count(range) > target >= b.times_ten().tick_count(range),
    ensures
        a == b,
{
    if a.exponent < b.exponent {
        let q = a.times_ten().lemma_divides_power_of_ten(b);
        a.times_ten().lemma_count_refines(b, range, q);
    } else if b.exponent < a.exponent {
        let q = b.times_ten().lemma_divides_power_of_ten(a);
        b.times_ten().lemma_count_refines(a, range, q);
    }
}

/// The spacing next before the finest fitting one puts too many ticks into
/// the range.
pub proof fn lemma_next_finer_is_too_fine(range: Interval, target: int, spacing: NiceNumber)
    requires
        is_finest_fit(range, target, spacing),
    ensures
        spacing.finer().is_nice(),
        spacing.finer().tick_count(range) > target,
{
    spacing.lemma_finer_rank();
}

/// The same range measured in a unit ten times finer.
pub open spec fn in_tenths(range: Interval) -> Interval {
    Interval { min: 10 * range.min, max: 10 * range.max }
}

/// The unit does not matter to the number of ticks: a range measured in
/// tenths holds as many multiples of ten times a number as the range itself
/// holds of the number.
pub proof fn lemma_tick_count_in_tenths(range: Interval, spacing: NiceNumber)
    requires
        spacing.mantissa >= 1,
    ensures
        spacing.times_ten().tick_count(in_tenths(range)) == spacing.tick_count(range),
{
    spacing.lemma_positive();
    let lo = range.min;
    let hi = range.max;
    let step = spacing.step();
    let refine = spacing.refine();
    let m = spacing.mantissa;
    if spacing.exponent >= 0 {
        let p = pow10(spacing.exponent as nat);
        assert(pow10((spacing.exponent + 1) as nat) == 10 * p);
        assert(pow10(0) == 1);
        if spacing.exponent == 0 {
            assert(m * p == m) by (nonlinear_arith)
                requires
                    p == 1,
            ;
        }
        assert(step == m * p);
        assert(m * (10 * p) == step * 10) by (nonlinear_arith)
            requires
                step == m * p,
        ;
        assert((10 * lo) * 1 == (lo * 1) * 10 && (10 * hi) * 1 == (hi * 1) * 10)
            by (nonlinear_arith);
        lemma_multiples_between_scale(lo * 1, hi * 1, step, 10);
    } else {
        let rest = pow10((-spacing.exponent - 1) as nat);
        assert(refine == 10 * rest);
        assert(spacing.times_ten().refine() == rest) by {
            assert(pow10(0) == 1);
        }
        assert((10 * lo) * rest == lo * (10 * rest) && (10 * hi) * rest == hi * (10 * rest))
            by (nonlinear_arith);
    }
}

/// The unit does not matter to the spacing: where a number is the finest
/// fit for a range, ten times the number is the finest fit for the range
/// measured in tenths.
pub proof fn lemma_finest_fit_in_tenths(range: Interval, target: int, spacing: NiceNumber)
    requires
        is_finest_fit(range, target, spacing),
    ensures
        is_finest_fit(in_tenths(range), target, spacing.times_ten()),
{
    lemma_tick_count_in_tenths(range, spacing);
    assert forall|finer: NiceNumber|
        finer.is_nice() && finer.rank() < spacing.times_ten().rank() implies (
    #[trigger] finer.tick_count(in_tenths(range))) > target by {
        let tenth = NiceNumber { mantissa: finer.mantissa, exponent: finer.exponent - 1 };
        assert(tenth.times_ten() == finer);
        assert(tenth.rank() < spacing.rank());
        lemma_tick_count_in_tenths(range, tenth);
        assert(tenth.tick_count(range) > target);
    }
}

/// A target of one gives the tick at the lower end and no other; a target of
/// two gives the ticks at the two ends.
pub proof fn lemma_endpoint_ticks(ticker: Ticker)
    requires
        ticker.wf(),
    ensures
        ticker@.target_num_points == 0 ==> ticker.ticks_spec() == Seq::<Tick>::empty(),
        ticker@.target_num_points == 1 ==> ticker.ticks_spec() == seq![
            tick_at_min(ticker@.data_range@),
        ],
        ticker@.target_num_points == 2 ==> ticker.ticks_spec() == seq![
            tick_at_min(ticker@.data_range@),
            tick_at_max(ticker@.data_range@),
        ],
{
}

/// There are never more ticks than the target asks for.
pub proof fn lemma_ticks_within_target(ticker: Ticker)
    requires
        ticker.wf(),
    ensures
        ticker.ticks_spec().len() <= ticker@.target_num_points,
{
    if ticker@.target_num_points > 2 {
        if let Some(s) = ticker@.spacing {
            lemma_tick_in_range(ticker@.data_range@, s@, 0);
        }
    }
}

/// Every tick lies in the range, at the position that belongs to its value:
/// `0 <= t <= 1` and `value - min == t * size`, with the value and the ends
/// of the range measured in the units of the tick's value.
pub proof fn lemma_tick_round_trip(ticker: Ticker, index: int)
    requires
        ticker.wf(),
        0 <= index < ticker.ticks_spec().len(),
    ensures
        ({
            let tick = ticker.ticks_spec()[index];
            let range = ticker@.data_range@;
            let units = units_per_coordinate(tick);
            &&& tick.t.den > 0
            &&& 0 <= tick.t.num <= tick.t.den
            &&& (tick.value.coeff - range.min * units) * tick.t.den == tick.t.num * ((range.max
                - range.min) * units)
            &&& range.min * units <= tick.value.coeff <= range.max * units
        }),
{
    let tick = ticker.ticks_spec()[index];
    let range = ticker@.data_range@;
    let units = units_per_coordinate(tick);
    let lo = range.min;
    let hi = range.max;
    if ticker@.target_num_points <= 2 {
        assert(units == 1);
        assert(lo * 1 == lo && hi * 1 == hi && (hi - lo) * 1 == hi - lo) by (nonlinear_arith);
        assert((lo - lo) * 1 == 0 * (hi - lo) && (hi - lo) * 1 == 1 * (hi - lo))
            by (nonlinear_arith);
    } else {
        let s = ticker@.spacing->Some_0;
        let spacing = s@;
        lemma_tick_in_range(range, spacing, index);
        spacing.lemma_positive();
        lemma_spacing_bounds(s);
        let refine = spacing.refine();
        let step = spacing.step();
        let value = spacing.next_tick(lo) + index * step;
        assert(units == refine);
        assert(-1_000_000_000_000_000_000_000_000_000_000_000_000 <= lo * refine && hi * refine
            <= 1_000_000_000_000_000_000_000_000_000_000_000_000 && (hi - lo) * refine == hi
            * refine - lo * refine && (hi - lo) * refine > 0) by (nonlinear_arith)
            requires
                -1_000_000_000_000_000 <= lo < hi,
                hi <= 1_000_000_000_000_000,
                1 <= refine <= 1_000_000_000_000_000_000_000,
        ;
        assert(tick.value.coeff == value);
        assert(tick.t.num == value - lo * refine);
        assert(tick.t.den == (hi - lo) * refine);
    }
}

/// The ticks come in the order of their values: all values are written in
/// the same units, and a later tick never has the smaller value. In a range
/// that is more than one point it has the larger one.
pub proof fn lemma_ticks_ascend(ticker: Ticker, earlier: int, later: int)
    requires
        ticker.wf(),
        0 <= earlier < later < ticker.ticks_spec().len(),
    ensures
        ticker.ticks_spec()[earlier].value.exp == ticker.ticks_spec()[later].value.exp,
        ticker.ticks_spec()[earlier].value.coeff <= ticker.ticks_spec()[later].value.coeff,
        ticker@.data_range.size_spec() > 0 ==> ticker.ticks_spec()[earlier].value.coeff
            < ticker.ticks_spec()[later].value.coeff,
{
    if ticker@.target_num_points > 2 {
        let s = ticker@.spacing->Some_0;
        let spacing = s@;
        let range = ticker@.data_range@;
        lemma_tick_round_trip(ticker, earlier);
        lemma_tick_round_trip(ticker, later);
        spacing.lemma_positive();
        lemma_spacing_bounds(s);
        let refine = spacing.refine();
        let step = spacing.step();
        let lo = range.min;
        let hi = range.max;
        lemma_tick_in_range(range, spacing, earlier);
        lemma_tick_in_range(range, spacing, later);
        assert(-1_000_000_000_000_000_000_000_000_000_000_000_000 <= lo * refine && hi * refine
            <= 1_000_000_000_000_000_000_000_000_000_000_000_000) by (nonlinear_arith)
            requires
                -1_000_000_000_000_000 <= lo < hi,
                hi <= 1_000_000_000_000_000,
                1 <= refine <= 1_000_000_000_000_000_000_000,
        ;
        assert(earlier * step < later * step) by (nonlinear_arith)
            requires
                earlier < later,
                step >= 1,
        ;
    }
}

/// The denominator of a well-formed spacing stays within `10^21`.
proof fn lemma_spacing_bounds(spacing: Spacing)
    requires
        spacing.wf(),
    ensures
        1 <= spacing@.refine() <= 1_000_000_000_000_000_000_000,
{
    spacing@.lemma_positive();
    if spacing@.exponent < 0 {
        crate::powers::lemma_pow10_monotone((-spacing@.exponent) as nat, 21);
    }
    crate::powers::lemma_pow10_values();
}

} // verus!
