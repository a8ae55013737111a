//! Ticks along an axis: where they go, how many there are, and how far apart
//! they should be to stay below a wanted number of labels.

use vstd::prelude::*;
use crate::multiples::{
    ceil_to_multiple,
    floor_to_multiple,
    lemma_first_last_gap,
    lemma_multiple_form,
    lemma_multiple_mod,
    lemma_multiples_between_bounds,
    lemma_multiples_between_is_steps,
    lemma_multiples_between_nonnegative,
    lemma_next_multiple,
    lemma_prev_multiple,
    next_multiple,
    prev_multiple,
    steps_between,
};
use crate::powers::{lemma_pow10_monotone, lemma_pow10_positive, lemma_pow10_values, pow10};
use crate::range::{on_grid, Interval, Range, GRID_LIMIT};
use crate::spacing::{NiceNumber, Spacing};

verus! {

/// The direction an axis runs in.
#[derive(Debug, Copy, Clone, PartialEq, Eq, Structural)]
pub enum Direction {
    X,
    Y,
}

impl Direction {
    /// How many labels fit along an axis of this direction in a drawing area
    /// `width` by `height` pixels large: one for every full hundred pixels of
    /// width, or every full forty pixels of height, and one more.
    pub fn max_labels(self, width: usize, height: usize) -> (labels: usize)
        ensures
            labels == match self {
                Direction::X => width / 100 + 1,
                Direction::Y => height / 40 + 1,
            },
    {
        match self {
            Direction::X => width / 100 + 1,
            Direction::Y => height / 40 + 1,
        }
    }
}

/// The first tick at or above `v`: the smallest multiple of `spacing` that is
/// not below `v`. A coordinate that is a multiple itself is returned unchanged.
pub fn calc_next_tick(v: i64, spacing: Spacing) -> (tick: i64)
    requires
        on_grid(v as int),
        spacing.wf(),
    ensures
        tick * spacing@.refine() == spacing@.next_tick(v as int),
        spacing@.exponent >= 0 ==> tick == next_multiple(v as int, spacing@.step()),
        spacing@.exponent < 0 ==> tick == v,
        v <= tick,
        (tick - v) * spacing@.refine() < spacing@.step(),
{
    let step = spacing.step();
    proof {
        spacing@.lemma_positive();
        lemma_next_multiple(v * spacing@.refine(), spacing@.step());
        if spacing@.exponent < 0 {
            spacing@.lemma_coordinates_are_multiples(v as int);
        } else {
            let r = spacing@.refine();
            assert(v * r == v as int) by (nonlinear_arith)
                requires
                    r == 1,
            ;
        }
    }
    if spacing.exponent() < 0 {
        v
    } else {
        let tick = ceil_to_multiple(v as i128, step);
        proof {
            let r = spacing@.refine();
            assert(tick * r == tick as int) by (nonlinear_arith)
                requires
                    r == 1,
            ;
        }
        tick as i64
    }
}

/// The last tick at or below `v`: the largest multiple of `spacing` that is
/// not above `v`. A coordinate that is a multiple itself is returned unchanged.
pub fn calc_prev_tick(v: i64, spacing: Spacing) -> (tick: i64)
    requires
        on_grid(v as int),
        spacing.wf(),
    ensures
        tick * spacing@.refine() == spacing@.prev_tick(v as int),
        spacing@.exponent >= 0 ==> tick == prev_multiple(v as int, spacing@.step()),
        spacing@.exponent < 0 ==> tick == v,
        tick <= v,
        (v - tick) * spacing@.refine() < spacing@.step(),
{
    let step = spacing.step();
    proof {
        spacing@.lemma_positive();
        lemma_prev_multiple(v * spacing@.refine(), spacing@.step());
        if spacing@.exponent < 0 {
            spacing@.lemma_coordinates_are_multiples(v as int);
        } else {
            let r = spacing@.refine();
            assert(v * r == v as int) by (nonlinear_arith)
                requires
                    r == 1,
            ;
        }
    }
    if spacing.exponent() < 0 {
        v
    } else {
        let tick = floor_to_multiple(v as i128, step);
        proof {
            let r = spacing@.refine();
            assert(tick * r == tick as int) by (nonlinear_arith)
                requires
                    r == 1,
            ;
        }
        tick as i64
    }
}

/// The two ends of `range` on the grid refined for `spacing`.
fn refined_ends(range: Range, spacing: Spacing) -> (ends: (i128, i128))
    requires
        range.wf(),
        spacing.wf(),
    ensures
        ends.0 == range@.min * spacing@.refine(),
        ends.1 == range@.max * spacing@.refine(),
        ends.0 <= ends.1,
        -1_000_000_000_000_000_000_000_000_000_000_000_000 <= ends.0,
        ends.1 <= 1_000_000_000_000_000_000_000_000_000_000_000_000,
        ends.1 - ends.0 == range.size_spec() * spacing@.refine(),
{
    let refine = spacing.refine();
    proof {
        let r = refine as int;
        let lo = range@.min;
        let hi = range@.max;
        assert(-1_000_000_000_000_000_000_000_000_000_000_000_000 <= lo * r && lo * r <= hi * r
            && hi * r <= 1_000_000_000_000_000_000_000_000_000_000_000_000 && hi * r - lo * r == (hi
            - lo) * r) by (nonlinear_arith)
            requires
                1 <= r <= 1_000_000_000_000_000_000_000,
                -1_000_000_000_000_000 <= lo <= hi,
                hi <= 1_000_000_000_000_000,
        ;
    }
    (range.min() as i128 * refine, range.max() as i128 * refine)
}

/// The number of ticks in `range`: the multiples of `spacing` from the first
/// tick at or above the lower end to the last tick at or below the upper end,
/// both counted.
pub fn count_ticks(range: Range, spacing: Spacing) -> (count: u128)
    requires
        range.wf(),
        spacing.wf(),
    ensures
        count == spacing@.tick_count(range@),
{
    let step = spacing.step();
    let (lo, hi) = refined_ends(range, spacing);
    let start = ceil_to_multiple(lo, step);
    let end = floor_to_multiple(hi, step);
    proof {
        lemma_next_multiple(lo as int, step as int);
        lemma_prev_multiple(hi as int, step as int);
        lemma_multiples_between_nonnegative(lo as int, hi as int, step as int);
        lemma_multiple_form(start as int, step as int);
        lemma_multiple_form(end as int, step as int);
        let ks = start as int / step as int;
        let ke = end as int / step as int;
        assert(end - start == step * (ke - ks)) by (nonlinear_arith)
            requires
                start == step * ks,
                end == step * ke,
        ;
        lemma_multiple_mod(ke - ks, step as int);
    }
    if end < start {
        0
    } else {
        ((end - start) / step + 1) as u128
    }
}

/// The number of ticks in `range`, counted one by one: start at the first
/// tick, step by `spacing`, and count while the last tick is not passed.
pub fn count_ticks_slow(range: Range, spacing: Spacing) -> (count: u128)
    requires
        range.wf(),
        spacing.wf(),
    ensures
        count == steps_between(
            spacing@.next_tick(range@.min),
            spacing@.prev_tick(range@.max),
            spacing@.step(),
        ),
{
    let step = spacing.step();
    let (lo, hi) = refined_ends(range, spacing);
    let mut start = ceil_to_multiple(lo, step);
    let end = floor_to_multiple(hi, step);
    let ghost first = start as int;
    proof {
        lemma_next_multiple(lo as int, step as int);
        lemma_prev_multiple(hi as int, step as int);
        lemma_multiples_between_is_steps(lo as int, hi as int, step as int);
        lemma_multiples_between_bounds(lo as int, hi as int, step as int);
        lemma_first_last_gap(lo as int, hi as int, step as int);
        lemma_div_at_most(hi - lo, step as int);
    }
    let mut tick_count: u128 = 1;
    while start <= end
        invariant
            step > 0,
            first <= start <= end + step,
            end <= 1_000_000_000_000_000_000_000_000_000_000_000_000,
            step <= 500_000_000_000_000_000,
            tick_count >= 1,
            steps_between(first, end as int, step as int) == (tick_count - 1) + steps_between(
                start as int,
                end as int,
                step as int,
            ),
            steps_between(first, end as int, step as int)
                <= 2_000_000_000_000_000_000_000_000_000_000_000_001,
        decreases end - start + step,
    {
        tick_count += 1;
        start += step;
    }
    // correct for the count having started at one
    tick_count - 1
}

/// A quotient by a positive divisor is at most the dividend where that is
/// not negative.
proof fn lemma_div_at_most(x: int, d: int)
    requires
        x >= 0,
        d >= 1,
    ensures
        0 <= x / d <= x,
{
    vstd::arithmetic::div_mod::lemma_fundamental_div_mod(x, d);
    vstd::arithmetic::div_mod::lemma_mod_bound(x, d);
    let q = x / d;
    let r = x % d;
    assert(0 <= q <= x) by (nonlinear_arith)
        requires
            x == d * q + r,
            0 <= r < d,
            x >= 0,
            d >= 1,
    ;
}

/// Whether `spacing` is the finest nice number that puts at most `target`
/// ticks into `range`: it does so itself, and every nice number before it in
/// the sequence puts more.
pub open spec fn is_finest_fit(range: Interval, target: int, spacing: NiceNumber) -> bool {
    &&& spacing.is_nice()
    &&& spacing.tick_count(range) <= target
    &&& forall|finer: NiceNumber|
        finer.is_nice() && finer.rank() < spacing.rank() ==> #[trigger] finer.tick_count(range)
            > target
}

/// Whether `intervals` distances of ten times `power` fit into `size`.
fn ten_times_fits(power: u128, intervals: u128, size: u128) -> (fits: bool)
    requires
        1 <= power <= 2 * GRID_LIMIT,
        1 <= intervals <= u64::MAX,
    ensures
        fits <==> power * 10 * intervals <= size,
{
    assert(power * 10 * intervals <= 20 * GRID_LIMIT * u64::MAX) by (nonlinear_arith)
        requires
            1 <= power <= 2 * GRID_LIMIT,
            1 <= intervals <= u64::MAX,
    ;
    power * 10 * intervals <= size
}

/// The exponent of the largest power of ten of which `intervals` fit into
/// `size`: the floor of the decimal logarithm of `size / intervals`.
fn ideal_magnitude(size: u128, intervals: u128) -> (exponent: i32)
    requires
        1 <= size <= 2 * GRID_LIMIT,
        1 <= intervals <= u64::MAX,
    ensures
        -20 <= exponent <= 15,
        (NiceNumber { mantissa: 1, exponent: exponent as int }).fits(size as int, intervals as int),
        !(NiceNumber { mantissa: 1, exponent: exponent + 1 }).fits(size as int, intervals as int),
{
    let mut exponent: i32 = 0;
    proof {
        lemma_pow10_values();
    }
    if intervals <= size {
        let mut power: u128 = 1;
        while ten_times_fits(power, intervals, size)
            invariant
                1 <= size <= 2 * GRID_LIMIT,
                1 <= intervals <= u64::MAX,
                0 <= exponent <= 15,
                power == pow10(exponent as nat),
                1 <= power <= size,
                power * intervals <= size,
            decreases size - power,
        {
            proof {
                assert(pow10((exponent + 1) as nat) == 10 * pow10(exponent as nat));
                assert(power * 10 <= size) by (nonlinear_arith)
                    requires
                        power * 10 * intervals <= size,
                        intervals >= 1,
                        power >= 1,
                ;
                if exponent + 1 >= 16 {
                    lemma_pow10_monotone(16, (exponent + 1) as nat);
                    lemma_pow10_values();
                }
            }
            power = power * 10;
            exponent = exponent + 1;
        }
        proof {
            assert(pow10((exponent + 1) as nat) == 10 * pow10(exponent as nat));
            assert(pow10(0) == 1);
            let p = power as int;
            let n = intervals as int;
            assert(1 * p * n == p * n && (1 * (10 * p)) * n == p * 10 * n && size * 1 == size)
                by (nonlinear_arith);
        }
        exponent
    } else {
        let mut scaled: u128 = size;
        while scaled < intervals
            invariant
                1 <= size <= 2 * GRID_LIMIT,
                1 <= intervals <= u64::MAX,
                size < intervals,
                -20 <= exponent <= 0,
                scaled == size * pow10((-exponent) as nat),
                scaled >= 1,
                exponent < 0 ==> size * pow10((-exponent - 1) as nat) < intervals,
            decreases
                (if scaled < intervals {
                    intervals - scaled
                } else {
                    0
                }),
        {
            proof {
                let p = pow10((-exponent) as nat);
                lemma_pow10_positive((-exponent) as nat);
                assert(pow10((-exponent + 1) as nat) == 10 * p);
                assert(size * (10 * p) == (size * p) * 10) by (nonlinear_arith);
                if -exponent >= 20 {
                    lemma_pow10_monotone(20, (-exponent) as nat);
                    lemma_pow10_values();
                    assert(size * p >= p) by (nonlinear_arith)
                        requires
                            size >= 1,
                            p >= 0,
                    ;
                }
            }
            scaled = scaled * 10;
            exponent = exponent - 1;
        }
        proof {
            let n = intervals as int;
            assert(1 * n == n && size * 1 == size) by (nonlinear_arith);
        }
        exponent
    }
}

/// A power of ten that is just too fine for `num_ticks` labels: ticks at
/// that distance would be too many, ticks at ten times the distance would be
/// few enough.
pub fn pow_10_just_too_many(range: Range, num_ticks: usize) -> (spacing: Spacing)
    requires
        range.wf(),
        range.size_spec() > 0,
        num_ticks >= 2,
    ensures
        spacing.wf(),
        spacing@.mantissa == 1,
        spacing@.exponent <= 15,
        spacing@.tick_count(range@) > num_ticks,
        spacing@.times_ten().tick_count(range@) <= num_ticks,
{
    // one less than the ticks: the intervals between them
    let intervals = (num_ticks - 1) as u128;
    let size = range.size() as u128;
    let exponent = ideal_magnitude(size, intervals);
    let candidate = Spacing::new(1, exponent);
    proof {
        candidate@.times_ten().lemma_count_at_most(range@, intervals as int);
        let tenth = NiceNumber { mantissa: 1, exponent: exponent - 1 };
        assert(tenth.times_ten() == candidate@);
        tenth.lemma_tenth_fits(size as int, intervals as int);
        tenth.lemma_count_at_least(range@, 10 * intervals);
    }
    // The ideal distance ignores where the first and the last tick fall. If
    // the ends of the range leave too few ticks, the next finer power is it.
    if count_ticks(range, candidate) > num_ticks as u128 {
        candidate
    } else {
        Spacing::new(1, exponent - 1)
    }
}

/// The distance between ticks for an axis over `range` with at most
/// `target_count` labels: the finest of the numbers `1`, `2` or `5` times a
/// power of ten that puts no more than `target_count` ticks into the range.
/// There is no such distance for fewer than two labels or for a range of size
/// zero.
pub fn calc_tick_spacing(range: Range, target_count: usize) -> (spacing: Option<Spacing>)
    requires
        range.wf(),
    ensures
        spacing is None <==> (target_count <= 1 || range.size_spec() == 0),
        spacing matches Some(s) ==> {
            &&& s.wf()
            &&& is_finest_fit(range@, target_count as int, s@)
            &&& s@.finer().tick_count(range@) > target_count
        },
{
    if target_count <= 1 || range.size() == 0 {
        return None;
    }
    let too_many_10s = pow_10_just_too_many(range, target_count);
    assert(too_many_10s@.tick_count(range@) > target_count);
    assert(too_many_10s@.times_ten().tick_count(range@) <= target_count);
    let exponent = too_many_10s.exponent();
    let twice = Spacing::new(2, exponent);
    let five_times = Spacing::new(5, exponent);
    let ten_times = too_many_10s.times_ten();
    proof {
        let target = target_count as int;
        let base = too_many_10s@;
        assert forall|finer: NiceNumber| finer.is_nice() && finer.rank() <= base.rank() implies (
        #[trigger] finer.tick_count(range@)) > target by {
            let q = finer.lemma_divides_power_of_ten(base);
            finer.lemma_count_refines(base, range@, q);
        }
        assert forall|finer: NiceNumber|
            finer.is_nice() && finer.rank() == base.rank() + 1 implies finer == twice@ by {
            finer.lemma_rank_injective(twice@);
        }
        assert forall|finer: NiceNumber|
            finer.is_nice() && finer.rank() == base.rank() + 2 implies finer == five_times@ by {
            finer.lemma_rank_injective(five_times@);
        }
        assert(twice@.finer() == base);
        assert(five_times@.finer() == twice@);
        assert(ten_times@.finer() == five_times@);
    }
    // twice the power of ten that gives too many
    if count_ticks(range, twice) <= target_count as u128 {
        return Some(twice);
    }
    // five times the power of ten that gives too many
    if count_ticks(range, five_times) <= target_count as u128 {
        return Some(five_times);
    }
    // then it is the next power of ten
    Some(ten_times)
}

/// A position along an axis as the fraction `num / den` of its length.
#[derive(Debug, Copy, Clone, PartialEq, Eq, Structural)]
pub struct Fraction {
    pub num: u128,
    pub den: u128,
}

/// The number `coeff * 10^exp`, in grid units.
#[derive(Debug, Copy, Clone, PartialEq, Eq, Structural)]
pub struct Decimal {
    pub coeff: i128,
    pub exp: i32,
}

/// The position at which a tick should be drawn.
#[derive(Debug, Copy, Clone, PartialEq, Eq, Structural)]
pub struct Tick {
    /// The distance along the axis at which the value is displayed: zero at
    /// the lower end of the range, one at the upper end.
    pub t: Fraction,
    /// The value that is displayed.
    pub value: Decimal,
}

impl Tick {
    /// The tick that shows `value` at the position `t`.
    pub fn new(t: Fraction, value: Decimal) -> (tick: Tick)
        ensures
            tick == (Tick { t, value }),
    {
        Tick { t, value }
    }
}

/// The tick at the lower end of `range`.
pub open spec fn tick_at_min(range: Interval) -> Tick {
    Tick { t: Fraction { num: 0, den: 1 }, value: Decimal { coeff: range.min as i128, exp: 0 } }
}

/// The tick at the upper end of `range`.
pub open spec fn tick_at_max(range: Interval) -> Tick {
    Tick { t: Fraction { num: 1, den: 1 }, value: Decimal { coeff: range.max as i128, exp: 0 } }
}

/// The tick `index` steps of `spacing` after the first tick in `range`.
///
/// Value and position are measured on the grid refined for `spacing`: the
/// position is the distance from the lower end over the size of the range.
pub open spec fn tick_at_step(range: Interval, spacing: NiceNumber, index: int) -> Tick {
    let value = spacing.next_tick(range.min) + index * spacing.step();
    Tick {
        t: Fraction {
            num: (value - range.min * spacing.refine()) as u128,
            den: ((range.max - range.min) * spacing.refine()) as u128,
        },
        value: Decimal {
            coeff: value as i128,
            exp: (if spacing.exponent < 0 {
                spacing.exponent
            } else {
                0
            }) as i32,
        },
    }
}

/// What a [`Ticker`] holds.
pub ghost struct TickerState {
    pub data_range: Range,
    pub target_num_points: usize,
    pub spacing: Option<Spacing>,
}

/// The sequence of places along an axis at which ticks should be displayed,
/// with the values that should be displayed there.
#[derive(Debug, Copy, Clone)]
pub struct Ticker {
    data_range: Range,
    target_num_points: usize,
    // calculated
    spacing: Option<Spacing>,
}

impl View for Ticker {
    type V = TickerState;

    closed spec fn view(&self) -> TickerState {
        TickerState {
            data_range: self.data_range,
            target_num_points: self.target_num_points,
            spacing: self.spacing,
        }
    }
}

impl Ticker {
    /// The range is well formed and the spacing is the one that
    /// [`calc_tick_spacing`] gives for the range and the target.
    pub open spec fn wf(self) -> bool {
        &&& self@.data_range.wf()
        &&& self@.spacing is None <==> (self@.target_num_points <= 1
            || self@.data_range.size_spec() == 0)
        &&& self@.spacing matches Some(s) ==> s.wf() && is_finest_fit(
            self@.data_range@,
            self@.target_num_points as int,
            s@,
        )
    }

    /// The ticks, in the order of their values.
    ///
    /// No tick for a target of zero; the lower end for a target of one; both
    /// ends for a target of two; else every multiple of the spacing in the
    /// range, and nothing where the range has no spacing.
    pub open spec fn ticks_spec(self) -> Seq<Tick> {
        let range = self@.data_range@;
        if self@.target_num_points == 0 {
            Seq::empty()
        } else if self@.target_num_points == 1 {
            seq![tick_at_min(range)]
        } else if self@.target_num_points == 2 {
            seq![tick_at_min(range), tick_at_max(range)]
        } else {
            match self@.spacing {
                Some(s) => Seq::new(
                    s@.tick_count(range) as nat,
                    |index: int| tick_at_step(range, s@, index),
                ),
                None => Seq::empty(),
            }
        }
    }

    /// The ticks for an axis over `data_range` with at most
    /// `target_num_points` labels.
    pub fn new(data_range: Range, target_num_points: usize) -> (ticker: Ticker)
        requires
            data_range.wf(),
        ensures
            ticker.wf(),
            ticker@.data_range == data_range,
            ticker@.target_num_points == target_num_points,
    {
        let spacing = calc_tick_spacing(data_range, target_num_points);
        Ticker { data_range, target_num_points, spacing }
    }

    /// The range the ticks are laid over.
    pub fn data_range(&self) -> (range: Range)
        ensures
            range == self@.data_range,
    {
        self.data_range
    }

    /// The number of ticks that is not to be exceeded.
    pub fn target_num_points(&self) -> (target: usize)
        ensures
            target == self@.target_num_points,
    {
        self.target_num_points
    }

    /// The distance between ticks, where the range and the target have one.
    pub fn spacing(&self) -> (spacing: Option<Spacing>)
        ensures
            spacing == self@.spacing,
    {
        self.spacing
    }

    /// The coordinate of the first tick: the lower end of the range for a
    /// target of at most two, else the first multiple of the spacing in the
    /// range, and nothing where the range has no spacing.
    pub fn first_tick(&self) -> (first: Option<i64>)
        requires
            self.wf(),
        ensures
            self@.target_num_points <= 2 ==> (first matches Some(tick) && tick
                == self@.data_range@.min),
            self@.target_num_points > 2 ==> match self@.spacing {
                Some(s) => first matches Some(tick) && tick * s@.refine() == s@.next_tick(
                    self@.data_range@.min,
                ),
                None => first is None,
            },
    {
        match self.target_num_points {
            0 | 1 | 2 => Some(self.data_range.min()),
            _ => match self.spacing {
                Some(spacing) => Some(calc_next_tick(self.data_range.min(), spacing)),
                None => None,
            },
        }
    }

    /// An iterator that starts before the first tick.
    pub fn into_iter(self) -> (iter: TickerIter)
        requires
            self.wf(),
        ensures
            iter.wf(),
            iter@ == self.ticks_spec(),
    {
        let iter = TickerIter { inner: self, next_tick: 0 };
        assert(iter@ =~= self.ticks_spec());
        iter
    }

    /// All ticks, in the order of their values.
    pub fn ticks(&self) -> (ticks: Vec<Tick>)
        requires
            self.wf(),
        ensures
            ticks@ == self.ticks_spec(),
    {
        let mut iter = self.into_iter();
        let mut ticks: Vec<Tick> = Vec::new();
        loop
            invariant
                iter.wf(),
                ticks@ + iter@ == self.ticks_spec(),
            ensures
                ticks@ == self.ticks_spec(),
            decreases iter@.len(),
        {
            let ghost before = iter@;
            match iter.next() {
                Some(tick) => {
                    ticks.push(tick);
                    assert(ticks@ + iter@ =~= ticks@.drop_last() + before);
                },
                None => {
                    assert(ticks@ + iter@ =~= ticks@);
                    break ;
                },
            }
        }
        ticks
    }
}

/// Walks over the ticks of a [`Ticker`]. Its view is the sequence of the
/// ticks that are still to come.
pub struct TickerIter {
    inner: Ticker,
    next_tick: usize,
}

impl View for TickerIter {
    type V = Seq<Tick>;

    closed spec fn view(&self) -> Seq<Tick> {
        let all = self.inner.ticks_spec();
        if self.next_tick <= all.len() {
            all.skip(self.next_tick as int)
        } else {
            Seq::empty()
        }
    }
}

impl TickerIter {
    /// The ticker that is walked over is well formed.
    pub closed spec fn wf(self) -> bool {
        self.inner.wf()
    }

    /// The next tick, where there is one.
    pub fn next(&mut self) -> (tick: Option<Tick>)
        requires
            old(self).wf(),
        ensures
            final(self).wf(),
            match tick {
                Some(tick) => old(self)@.len() > 0 && tick == old(self)@[0] && final(self)@ == old(
                    self,
                )@.skip(1),
                None => old(self)@.len() == 0 && final(self)@ == old(self)@,
            },
    {
        let ghost all = self.inner.ticks_spec();
        let ghost range = self.inner@.data_range@;
        let min = self.inner.data_range.min();
        let max = self.inner.data_range.max();
        match self.inner.target_num_points {
            0 => None,
            1 => match self.next_tick {
                0 => {
                    self.next_tick += 1;
                    let tick = Tick::new(
                        Fraction { num: 0, den: 1 },
                        Decimal { coeff: min as i128, exp: 0 },
                    );
                    assert(self@ =~= all.skip(1));
                    Some(tick)
                },
                _ => None,
            },
            2 => match self.next_tick {
                0 => {
                    self.next_tick += 1;
                    let tick = Tick::new(
                        Fraction { num: 0, den: 1 },
                        Decimal { coeff: min as i128, exp: 0 },
                    );
                    assert(self@ =~= all.skip(1));
                    Some(tick)
                },
                1 => {
                    self.next_tick += 1;
                    let tick = Tick::new(
                        Fraction { num: 1, den: 1 },
                        Decimal { coeff: max as i128, exp: 0 },
                    );
                    assert(all.skip(1)[0] == all[1]);
                    assert(self@ =~= all.skip(1).skip(1));
                    Some(tick)
                },
                _ => None,
            },
            _ => {
                let spacing = match self.inner.spacing {
                    Some(spacing) => spacing,
                    None => {
                        return None;
                    },
                };
                let first = match self.inner.first_tick() {
                    Some(first) => first,
                    None => {
                        return None;
                    },
                };
                let step = spacing.step();
                let refine = spacing.refine();
                let (lo, hi) = refined_ends(self.inner.data_range, spacing);
                let index = self.next_tick;
                proof {
                    lemma_tick_in_range(range, spacing@, index as int);
                    lemma_next_multiple(lo as int, step as int);
                    let f = first as int;
                    let r = refine as int;
                    let st = step as int;
                    let i = index as int;
                    assert(-1_000_000_000_000_000_000_000_000_000_000_000_000 <= f * r && f * r
                        <= 1_000_000_000_000_000_000_000_000_000_000_500_000_000_000_000_000 && 0
                        <= i * st <= 18_446_744_073_709_551_615 * 500_000_000_000_000_000)
                        by (nonlinear_arith)
                        requires
                            f * r == spacing@.next_tick(range.min),
                            lo <= f * r < lo + st,
                            -1_000_000_000_000_000_000_000_000_000_000_000_000 <= lo
                                <= 1_000_000_000_000_000_000_000_000_000_000_000_000,
                            1 <= st <= 500_000_000_000_000_000,
                            0 <= i <= 18_446_744_073_709_551_615,
                    ;
                }
                let value = first as i128 * refine + index as i128 * step;
                if value <= hi {
                    let exp = if spacing.exponent() < 0 {
                        spacing.exponent()
                    } else {
                        0
                    };
                    let tick = Tick::new(
                        Fraction { num: (value - lo) as u128, den: (hi - lo) as u128 },
                        Decimal { coeff: value, exp },
                    );
                    self.next_tick += 1;
                    assert(self@ =~= all.skip(index as int).skip(1));
                    Some(tick)
                } else {
                    None
                }
            },
        }
    }
}

/// The tick `index` steps after the first lies in the range exactly when
/// `index` is below the number of ticks in the range.
pub proof fn lemma_tick_in_range(range: Interval, spacing: NiceNumber, index: int)
    requires
        spacing.mantissa >= 1,
        range.min <= range.max,
        index >= 0,
    ensures
        spacing.tick_count(range) >= 0,
        spacing.next_tick(range.min) + index * spacing.step() <= range.max * spacing.refine()
            <==> index < spacing.tick_count(range),
        spacing.next_tick(range.min) + index * spacing.step() >= range.min * spacing.refine(),
{
    spacing.lemma_positive();
    let step = spacing.step();
    let refine = spacing.refine();
    let lo = range.min * refine;
    let hi = range.max * refine;
    assert(lo <= hi) by (nonlinear_arith)
        requires
            lo == range.min * refine,
            hi == range.max * refine,
            range.min <= range.max,
            refine >= 1,
    ;
    lemma_multiples_between_nonnegative(lo, hi, step);
    lemma_next_multiple(lo, step);
    lemma_prev_multiple(hi, step);
    let first = next_multiple(lo, step);
    let last = prev_multiple(hi, step);
    lemma_multiple_form(first, step);
    lemma_multiple_form(last, step);
    let kf = first / step;
    let kl = last / step;
    assert(last - first == step * (kl - kf)) by (nonlinear_arith)
        requires
            first == step * kf,
            last == step * kl,
    ;
    lemma_multiple_mod(kl - kf, step);
    assert(first + index * step == step * (kf + index)) by (nonlinear_arith)
        requires
            first == step * kf,
    ;
    assert(index * step >= 0) by (nonlinear_arith)
        requires
            index >= 0,
            step >= 1,
    ;
    crate::multiples::lemma_multiple_in_interval(lo, hi, step, kf + index);
}

/// What a set of samples spans.
#[derive(Debug, Copy, Clone, PartialEq, Eq, Structural)]
pub enum Extent {
    /// There is no sample.
    Empty,
    /// A sample is missing, so the span is not known.
    Undefined,
    /// The samples span this range.
    Bounded(Range),
}

/// `range` is well formed, contains every sample, and each of its ends is
/// one of the samples.
pub open spec fn spans_tightly(range: Range, data: Seq<Option<i64>>) -> bool {
    &&& range.wf()
    &&& forall|i: int|
        0 <= i < data.len() ==> (#[trigger] data[i] matches Some(v) && range@.min <= v
            <= range@.max)
    &&& exists|i: int| 0 <= i < data.len() && #[trigger] data[i] == Some(range@.min as i64)
    &&& exists|i: int| 0 <= i < data.len() && #[trigger] data[i] == Some(range@.max as i64)
}

/// The range from the smallest to the largest sample.
///
/// A missing sample is propagated: with one in the data the extent is
/// undefined, however many samples are present.
pub fn data_as_range(data: &Vec<Option<i64>>) -> (extent: Extent)
    requires
        forall|i: int|
            0 <= i < data.len() ==> (#[trigger] data[i] matches Some(v) ==> on_grid(v as int)),
    ensures
        extent is Undefined <==> exists|i: int| 0 <= i < data.len() && #[trigger] data[i] is None,
        extent is Empty <==> data.len() == 0,
        extent matches Extent::Bounded(range) ==> spans_tightly(range, data@),
{
    if data.len() == 0 {
        return Extent::Empty;
    }
    let mut min: i64 = match data[0] {
        Some(v) => v,
        None => {
            return Extent::Undefined;
        },
    };
    let mut max: i64 = min;
    let mut i: usize = 1;
    while i < data.len()
        invariant
            1 <= i <= data.len(),
            forall|j: int|
                0 <= j < data.len() ==> (#[trigger] data[j] matches Some(v) ==> on_grid(v as int)),
            forall|j: int| 0 <= j < i ==> (#[trigger] data[j] matches Some(v) && min <= v <= max),
            exists|j: int| 0 <= j < i && #[trigger] data[j] == Some(min),
            exists|j: int| 0 <= j < i && #[trigger] data[j] == Some(max),
        decreases data.len() - i,
    {
        match data[i] {
            Some(v) => {
                if v < min {
                    min = v;
                }
                if v > max {
                    max = v;
                }
            },
            None => {
                return Extent::Undefined;
            },
        }
        i += 1;
    }
    let range = Range::new(min, max);
    proof {
        assert(range@.min as i64 == min);
        assert(range@.max as i64 == max);
    }
    Extent::Bounded(range)
}

} // verus!
