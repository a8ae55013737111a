use druid_graphs::axes::{calc_next_tick, count_ticks, Decimal, Fraction, Tick, Ticker};
use druid_graphs::range::Range;
use druid_graphs::spacing::Spacing;

fn tick(num: u128, den: u128, coeff: i128, exp: i32) -> Tick {
    Tick::new(Fraction { num, den }, Decimal { coeff, exp })
}

/// Ten to the power `-exp`, for an exponent that is not positive.
fn units_per_coordinate(exp: i32) -> i128 {
    10i128.pow((-exp) as u32)
}

#[test]
fn no_ticks_for_a_target_of_zero() {
    assert_eq!(Ticker::new(Range::new(0, 100), 0).ticks(), vec![]);
    assert!(Ticker::new(Range::new(0, 100), 0).into_iter().next().is_none());
}

#[test]
fn one_tick_at_the_lower_end_for_a_target_of_one() {
    assert_eq!(Ticker::new(Range::new(-3, 8), 1).ticks(), vec![tick(0, 1, -3, 0)]);
    assert_eq!(Ticker::new(Range::new(4, 4), 1).ticks(), vec![tick(0, 1, 4, 0)]);
}

#[test]
fn both_ends_for_a_target_of_two() {
    assert_eq!(
        Ticker::new(Range::new(-3, 8), 2).ticks(),
        vec![tick(0, 1, -3, 0), tick(1, 1, 8, 0)]
    );
    assert_eq!(
        Ticker::new(Range::new(4, 4), 2).ticks(),
        vec![tick(0, 1, 4, 0), tick(1, 1, 4, 0)]
    );
}

#[test]
fn ticks_at_every_multiple_of_the_spacing() {
    assert_eq!(
        Ticker::new(Range::new(0, 100), 5).ticks(),
        vec![tick(0, 100, 0, 0), tick(50, 100, 50, 0), tick(100, 100, 100, 0)]
    );
    assert_eq!(
        Ticker::new(Range::new(-5, 5), 3).ticks(),
        vec![tick(0, 10, -5, 0), tick(5, 10, 0, 0), tick(10, 10, 5, 0)]
    );
    assert_eq!(
        Ticker::new(Range::new(17, 23), 4).ticks(),
        vec![tick(1, 6, 18, 0), tick(3, 6, 20, 0), tick(5, 6, 22, 0)]
    );
}

#[test]
fn ticks_between_coordinates() {
    // half units from 0 to 3, written in tenths
    assert_eq!(
        Ticker::new(Range::new(0, 3), 10).ticks(),
        vec![
            tick(0, 30, 0, -1),
            tick(5, 30, 5, -1),
            tick(10, 30, 10, -1),
            tick(15, 30, 15, -1),
            tick(20, 30, 20, -1),
            tick(25, 30, 25, -1),
            tick(30, 30, 30, -1),
        ]
    );
}

#[test]
fn no_ticks_for_a_range_of_one_point_and_a_target_above_two() {
    assert_eq!(Ticker::new(Range::new(7, 7), 3).ticks(), vec![]);
    assert_eq!(Ticker::new(Range::new(7, 7), 3).first_tick(), None);
    assert_eq!(Ticker::new(Range::new(7, 7), 3).spacing(), None);
}

#[test]
fn ticker_keeps_what_it_was_made_of() {
    let ticker = Ticker::new(Range::new(0, 100), 5);
    assert_eq!(ticker.data_range(), Range::new(0, 100));
    assert_eq!(ticker.target_num_points(), 5);
    assert_eq!(ticker.spacing(), Some(Spacing::new(5, 1)));
    assert_eq!(Ticker::new(Range::new(0, 100), 1).spacing(), None);
}

#[test]
fn first_tick_is_the_first_multiple_in_the_range() {
    assert_eq!(Ticker::new(Range::new(17, 23), 4).first_tick(), Some(18));
    assert_eq!(Ticker::new(Range::new(-9, 109), 10).first_tick(), Some(0));
    assert_eq!(Ticker::new(Range::new(0, 3), 10).first_tick(), Some(0));
    assert_eq!(Ticker::new(Range::new(17, 23), 2).first_tick(), Some(17));
    assert_eq!(Ticker::new(Range::new(17, 23), 1).first_tick(), Some(17));
    assert_eq!(Ticker::new(Range::new(17, 23), 0).first_tick(), Some(17));
    let ticker = Ticker::new(Range::new(-37, 64), 7);
    assert_eq!(ticker.first_tick(), Some(calc_next_tick(-37, ticker.spacing().unwrap())));
}

#[test]
fn iterator_walks_the_ticks_and_then_stays_at_the_end() {
    let ticker = Ticker::new(Range::new(0, 100), 5);
    let mut iter = ticker.into_iter();
    assert_eq!(iter.next(), Some(tick(0, 100, 0, 0)));
    assert_eq!(iter.next(), Some(tick(50, 100, 50, 0)));
    assert_eq!(iter.next(), Some(tick(100, 100, 100, 0)));
    assert_eq!(iter.next(), None);
    assert_eq!(iter.next(), None);
}

#[test]
fn iterator_over_the_two_ends() {
    let mut iter = Ticker::new(Range::new(-3, 8), 2).into_iter();
    assert_eq!(iter.next(), Some(tick(0, 1, -3, 0)));
    assert_eq!(iter.next(), Some(tick(1, 1, 8, 0)));
    assert_eq!(iter.next(), None);
    assert_eq!(iter.next(), None);
}

#[test]
fn iterating_again_gives_the_same_ticks() {
    let ticker = Ticker::new(Range::new(-37, 64), 7);
    let mut first = ticker.into_iter();
    let mut walked = Vec::new();
    while let Some(tick) = first.next() {
        walked.push(tick);
    }
    assert_eq!(walked, ticker.ticks());
    assert_eq!(ticker.ticks(), ticker.ticks());
    assert_eq!(ticker.ticks(), Ticker::new(Range::new(-37, 64), 7).ticks());
}

#[test]
fn number_of_ticks_is_the_tick_count_and_within_the_target() {
    for min in vec![-100i64, -3, 0, 5] {
        for size in vec![1i64, 2, 9, 10, 11, 100, 333] {
            let range = Range::new(min, min + size);
            for target in 3usize..25 {
                let ticker = Ticker::new(range, target);
                let ticks = ticker.ticks();
                assert!(ticks.len() <= target);
                assert_eq!(ticks.len() as u128, count_ticks(range, ticker.spacing().unwrap()));
            }
        }
    }
}

#[test]
fn ticks_lie_where_their_values_are() {
    for min in vec![-100i64, -3, 0, 5] {
        for size in vec![0i64, 1, 2, 9, 10, 11, 100, 333] {
            let range = Range::new(min, min + size);
            for target in 0usize..25 {
                for tick in Ticker::new(range, target).ticks() {
                    let units = units_per_coordinate(tick.value.exp);
                    let offset = tick.value.coeff - range.min() as i128 * units;
                    let span = range.size() as i128 * units;
                    assert!(tick.t.den > 0);
                    assert!(tick.t.num <= tick.t.den);
                    // value - min == t * size
                    assert_eq!(offset * tick.t.den as i128, tick.t.num as i128 * span);
                    assert!(0 <= offset && offset <= span);
                }
            }
        }
    }
}

#[test]
fn tick_values_increase() {
    for size in vec![1i64, 2, 9, 10, 11, 100, 333] {
        for target in 2usize..25 {
            let ticks = Ticker::new(Range::new(-17, -17 + size), target).ticks();
            for pair in ticks.windows(2) {
                assert_eq!(pair[0].value.exp, pair[1].value.exp);
                assert!(pair[0].value.coeff < pair[1].value.coeff);
            }
        }
    }
}

#[test]
fn ticks_on_the_finest_grid() {
    // more ticks asked for than there are coordinates: the grid is refined
    let ticker = Ticker::new(Range::new(0, 1), 1_000_000);
    assert_eq!(ticker.spacing(), Some(Spacing::new(2, -6)));
    let ticks = ticker.ticks();
    assert_eq!(ticks.len(), 500_001);
    assert_eq!(ticks[0], tick(0, 1_000_000, 0, -6));
    assert_eq!(ticks[1], tick(2, 1_000_000, 2, -6));
    assert_eq!(ticks[500_000], tick(1_000_000, 1_000_000, 1_000_000, -6));
}

#[test]
fn tick_new_keeps_its_parts() {
    let made = Tick::new(Fraction { num: 1, den: 4 }, Decimal { coeff: 25, exp: -1 });
    assert_eq!(made.t, Fraction { num: 1, den: 4 });
    assert_eq!(made.value, Decimal { coeff: 25, exp: -1 });
}
