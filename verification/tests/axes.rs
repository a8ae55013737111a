use druid_graphs::axes::{
    calc_next_tick, calc_prev_tick, calc_tick_spacing, count_ticks, count_ticks_slow,
    data_as_range, pow_10_just_too_many, Direction, Extent,
};
use druid_graphs::range::Range;
use druid_graphs::spacing::Spacing;

/// The spacing one place before `spacing` in the sequence of nice numbers.
fn next_finer(spacing: Spacing) -> Spacing {
    match spacing.mantissa() {
        1 => Spacing::new(5, spacing.exponent() - 1),
        2 => Spacing::new(1, spacing.exponent()),
        _ => Spacing::new(2, spacing.exponent()),
    }
}

#[test]
fn test_prev_tick() {
    // the third case is measured in tenths: the last whole number at or below -0.5 is -1
    for (val, step, expected) in vec![
        (1, Spacing::new(1, 0), 1),
        (1, Spacing::new(2, 0), 0),
        (-5, Spacing::new(1, 1), -10),
    ] {
        assert_eq!(calc_prev_tick(val, step), expected);
    }
}

#[test]
fn test_next_tick() {
    for (val, step, expected) in vec![(1, Spacing::new(1, 0), 1), (1, Spacing::new(2, 0), 2)] {
        assert_eq!(calc_next_tick(val, step), expected);
    }
}

#[test]
fn test_pow_10_just_too_many() {
    // the last case is the range from 0.0001 to 0.0010, measured in ten-thousandths
    for (min, max, num_ticks) in vec![
        (0, 100, 10),
        (-9, 109, 10),
        (-9, 99, 10),
        (1, 10, 2),
        (1, 10, 10),
    ] {
        let range = Range::new(min, max);
        let step = pow_10_just_too_many(range, num_ticks);
        assert!(
            count_ticks_slow(range, step) > num_ticks as u128,
            "count_ticks({:?}, {:?}) = {} > {}",
            range,
            step,
            count_ticks_slow(range, step),
            num_ticks
        );
        assert!(
            count_ticks_slow(range, step.times_ten()) <= num_ticks as u128,
            "count_ticks({:?}, {:?}) = {} <= {}",
            range,
            step.times_ten(),
            count_ticks_slow(range, step),
            num_ticks
        );
    }
}

#[test]
fn test_count_ticks() {
    for (min, max, step) in vec![(1, 10, Spacing::new(2, 0))] {
        let r = Range::new(min, max);
        assert_eq!(count_ticks(r, step), count_ticks_slow(r, step));
    }
}

#[test]
fn pow_10_just_too_many_exact_values() {
    assert_eq!(pow_10_just_too_many(Range::new(0, 100), 10), Spacing::new(1, 1));
    assert_eq!(pow_10_just_too_many(Range::new(-9, 99), 10), Spacing::new(1, 0));
    assert_eq!(pow_10_just_too_many(Range::new(1, 10), 2), Spacing::new(1, 0));
    assert_eq!(pow_10_just_too_many(Range::new(1, 10), 10), Spacing::new(1, -1));
    assert_eq!(pow_10_just_too_many(Range::new(0, 3), 10), Spacing::new(1, -1));
}

#[test]
fn next_tick_of_negative_values() {
    assert_eq!(calc_next_tick(-5, Spacing::new(1, 1)), 0);
    assert_eq!(calc_next_tick(-15, Spacing::new(1, 1)), -10);
    assert_eq!(calc_next_tick(-10, Spacing::new(1, 1)), -10);
    assert_eq!(calc_next_tick(-1, Spacing::new(5, 0)), 0);
    assert_eq!(calc_next_tick(-6, Spacing::new(5, 0)), -5);
    assert_eq!(calc_prev_tick(-6, Spacing::new(5, 0)), -10);
    assert_eq!(calc_prev_tick(-1, Spacing::new(2, 2)), -200);
    assert_eq!(calc_prev_tick(0, Spacing::new(2, 2)), 0);
}

#[test]
fn ticks_below_one_unit_leave_coordinates_alone() {
    for v in vec![-7, -1, 0, 1, 3, 1_000_000_000_000_000] {
        for spacing in vec![Spacing::new(1, -1), Spacing::new(2, -3), Spacing::new(5, -21)] {
            assert_eq!(calc_next_tick(v, spacing), v);
            assert_eq!(calc_prev_tick(v, spacing), v);
        }
    }
}

#[test]
fn next_and_prev_tick_bracket_the_value() {
    for exponent in 0..4 {
        for mantissa in vec![1u8, 2, 5] {
            let spacing = Spacing::new(mantissa, exponent);
            let step = mantissa as i64 * 10i64.pow(exponent as u32);
            for v in -250i64..250 {
                let next = calc_next_tick(v, spacing);
                let prev = calc_prev_tick(v, spacing);
                assert_eq!(next % step, 0);
                assert_eq!(prev % step, 0);
                assert!(prev <= v && v <= next);
                assert!(next - v < step && v - prev < step);
                if v % step == 0 {
                    assert_eq!(next, v);
                    assert_eq!(prev, v);
                } else {
                    assert_eq!(next - prev, step);
                }
            }
        }
    }
}

#[test]
fn next_tick_at_the_limits_of_the_grid() {
    let limit = 1_000_000_000_000_000i64;
    assert_eq!(calc_next_tick(limit, Spacing::new(5, 17)), 500_000_000_000_000_000);
    assert_eq!(calc_next_tick(-limit, Spacing::new(5, 17)), 0);
    assert_eq!(calc_prev_tick(-limit, Spacing::new(5, 17)), -500_000_000_000_000_000);
    assert_eq!(calc_prev_tick(limit, Spacing::new(5, 17)), 0);
    assert_eq!(calc_next_tick(limit - 1, Spacing::new(1, 15)), limit);
}

#[test]
fn count_ticks_exact_values() {
    assert_eq!(count_ticks(Range::new(1, 10), Spacing::new(2, 0)), 5);
    assert_eq!(count_ticks(Range::new(0, 100), Spacing::new(2, 1)), 6);
    assert_eq!(count_ticks(Range::new(-7, 7), Spacing::new(5, -1)), 29);
    assert_eq!(count_ticks(Range::new(0, 100), Spacing::new(1, 0)), 101);
    assert_eq!(count_ticks(Range::new(3, 3), Spacing::new(1, 0)), 1);
    assert_eq!(count_ticks(Range::new(3, 3), Spacing::new(2, 0)), 0);
}

#[test]
fn count_ticks_is_zero_where_no_tick_falls_into_the_range() {
    let range = Range::new(1, 2);
    let spacing = Spacing::new(5, 0);
    assert_eq!(count_ticks(range, spacing), 0);
    assert_eq!(count_ticks_slow(range, spacing), 0);
}

#[test]
fn count_ticks_agrees_with_counting_one_by_one() {
    for min in -12i64..12 {
        for size in 0i64..30 {
            let range = Range::new(min, min + size);
            for exponent in -2..3 {
                for mantissa in vec![1u8, 2, 5] {
                    let spacing = Spacing::new(mantissa, exponent);
                    assert_eq!(count_ticks(range, spacing), count_ticks_slow(range, spacing));
                }
            }
        }
    }
}

#[test]
fn count_ticks_on_the_finest_grid() {
    let range = Range::new(-1_000_000_000_000_000, 1_000_000_000_000_000);
    assert_eq!(
        count_ticks(range, Spacing::new(1, -21)),
        2_000_000_000_000_000_000_000_000_000_000_000_001
    );
    assert_eq!(count_ticks(range, Spacing::new(5, 17)), 1);
}

#[test]
fn tick_spacing_exact_values() {
    assert_eq!(calc_tick_spacing(Range::new(0, 100), 5), Some(Spacing::new(5, 1)));
    assert_eq!(calc_tick_spacing(Range::new(0, 100), 10), Some(Spacing::new(2, 1)));
    assert_eq!(calc_tick_spacing(Range::new(-9, 109), 10), Some(Spacing::new(2, 1)));
    assert_eq!(calc_tick_spacing(Range::new(-9, 99), 10), Some(Spacing::new(1, 1)));
    assert_eq!(calc_tick_spacing(Range::new(1, 10), 2), Some(Spacing::new(5, 0)));
    assert_eq!(calc_tick_spacing(Range::new(0, 100), 11), Some(Spacing::new(1, 1)));
    assert_eq!(calc_tick_spacing(Range::new(0, 100), 21), Some(Spacing::new(5, 0)));
    assert_eq!(calc_tick_spacing(Range::new(0, 7), 4), Some(Spacing::new(2, 0)));
    assert_eq!(calc_tick_spacing(Range::new(0, 1000), 7), Some(Spacing::new(2, 2)));
    assert_eq!(calc_tick_spacing(Range::new(-250, 250), 6), Some(Spacing::new(1, 2)));
}

#[test]
fn tick_spacing_probes_two_then_five_then_ten() {
    // the power of ten that is just too fine is 10, 10 and 1
    let twice = calc_tick_spacing(Range::new(0, 100), 10).unwrap();
    assert_eq!((twice.mantissa(), twice.exponent()), (2, 1));
    let five_times = calc_tick_spacing(Range::new(0, 100), 5).unwrap();
    assert_eq!((five_times.mantissa(), five_times.exponent()), (5, 1));
    let ten_times = calc_tick_spacing(Range::new(-9, 99), 10).unwrap();
    assert_eq!((ten_times.mantissa(), ten_times.exponent()), (1, 1));
}

#[test]
fn tick_spacing_below_one_unit() {
    assert_eq!(calc_tick_spacing(Range::new(0, 3), 10), Some(Spacing::new(5, -1)));
    assert_eq!(calc_tick_spacing(Range::new(0, 1), 3), Some(Spacing::new(5, -1)));
    assert_eq!(calc_tick_spacing(Range::new(1, 10), 10), Some(Spacing::new(1, 0)));
}

#[test]
fn tick_spacing_degenerate_inputs() {
    assert_eq!(calc_tick_spacing(Range::new(0, 100), 0), None);
    assert_eq!(calc_tick_spacing(Range::new(0, 100), 1), None);
    assert_eq!(calc_tick_spacing(Range::new(3, 3), 5), None);
    assert_eq!(calc_tick_spacing(Range::new(3, 3), 0), None);
    assert!(calc_tick_spacing(Range::new(3, 4), 2).is_some());
}

#[test]
fn tick_spacing_at_the_limits() {
    let limit = 1_000_000_000_000_000i64;
    assert_eq!(calc_tick_spacing(Range::new(-limit, limit), 2), Some(Spacing::new(2, 15)));
    assert_eq!(
        calc_tick_spacing(Range::new(0, 1), 18_446_744_073_709_551_615),
        Some(Spacing::new(1, -19))
    );
}

#[test]
fn tick_spacing_brackets_the_target() {
    for min in vec![-1000i64, -37, -1, 0, 1, 12, 999] {
        for size in vec![1i64, 2, 3, 7, 10, 11, 64, 99, 100, 101, 1000, 12345] {
            let range = Range::new(min, min + size);
            for target in 2usize..40 {
                let spacing = calc_tick_spacing(range, target).unwrap();
                assert!(count_ticks(range, spacing) <= target as u128);
                assert!(count_ticks(range, next_finer(spacing)) > target as u128);
            }
        }
    }
}

#[test]
fn tick_spacing_is_a_nice_number() {
    for size in 1i64..200 {
        for target in 3usize..30 {
            let spacing = calc_tick_spacing(Range::new(-50, -50 + size), target).unwrap();
            assert!(matches!(spacing.mantissa(), 1 | 2 | 5));
        }
    }
}

#[test]
fn tick_spacing_does_not_depend_on_the_unit() {
    // the same range measured in units, tenths and thousandths
    let units = calc_tick_spacing(Range::new(-9, 109), 10).unwrap();
    let tenths = calc_tick_spacing(Range::new(-90, 1090), 10).unwrap();
    let thousandths = calc_tick_spacing(Range::new(-9000, 109000), 10).unwrap();
    assert_eq!(tenths, Spacing::new(units.mantissa(), units.exponent() + 1));
    assert_eq!(thousandths, Spacing::new(units.mantissa(), units.exponent() + 3));
}

#[test]
fn max_labels_exact_values() {
    assert_eq!(Direction::X.max_labels(250, 100), 3);
    assert_eq!(Direction::Y.max_labels(250, 100), 3);
    assert_eq!(Direction::X.max_labels(0, 1000), 1);
    assert_eq!(Direction::Y.max_labels(1000, 0), 1);
    assert_eq!(Direction::X.max_labels(99, 0), 1);
    assert_eq!(Direction::X.max_labels(100, 0), 2);
    assert_eq!(Direction::Y.max_labels(0, 39), 1);
    assert_eq!(Direction::Y.max_labels(0, 40), 2);
    assert_eq!(Direction::X.max_labels(usize::MAX, 0), usize::MAX / 100 + 1);
}

#[test]
fn data_as_range_spans_the_samples() {
    let data = vec![Some(3), Some(-4), Some(10), Some(0)];
    assert_eq!(data_as_range(&data), Extent::Bounded(Range::new(-4, 10)));
    assert_eq!(data_as_range(&vec![Some(7)]), Extent::Bounded(Range::new(7, 7)));
}

#[test]
fn data_as_range_propagates_a_missing_sample() {
    assert_eq!(data_as_range(&vec![Some(1), None, Some(3)]), Extent::Undefined);
    assert_eq!(data_as_range(&vec![None]), Extent::Undefined);
    assert_eq!(data_as_range(&vec![Some(1), Some(3), None]), Extent::Undefined);
}

#[test]
fn data_as_range_of_no_samples() {
    assert_eq!(data_as_range(&Vec::new()), Extent::Empty);
}
