use answer_sheet::myutils::math::{
    bin_index, clamp, first_best_variance, otsu_threshold, otsu_threshold_ranged, Ratio, Variance,
    MAX_SAMPLES,
};

fn ratio(num: i64, den: i64) -> Ratio {
    Ratio { num, den }
}

fn repeated(value: Ratio, times: usize) -> Vec<Ratio> {
    vec![value; times]
}

#[test]
fn ratio_compares_by_value() {
    assert!(ratio(1, 3).lt(&ratio(1, 2)));
    assert!(!ratio(1, 2).lt(&ratio(1, 3)));
    assert!(!ratio(2, 4).lt(&ratio(1, 2)));
    assert!(ratio(-1, 2).lt(&ratio(0, 1)));
    assert!(ratio(i64::MAX - 1, i64::MAX).lt(&ratio(1, 1)));
}

#[test]
fn ratio_zero_and_validity() {
    assert_eq!(Ratio::zero(), ratio(0, 1));
    assert!(ratio(3, 4).is_valid());
    assert!(!ratio(3, 0).is_valid());
    assert!(!ratio(3, -4).is_valid());
}

#[test]
fn bin_is_the_value_times_999_rounded_down() {
    assert_eq!(bin_index(&ratio(0, 1)), 0);
    assert_eq!(bin_index(&ratio(1, 1)), 999);
    assert_eq!(bin_index(&ratio(1, 2)), 499);
    assert_eq!(bin_index(&ratio(1, 10)), 99);
    assert_eq!(bin_index(&ratio(9, 10)), 899);
    assert_eq!(bin_index(&ratio(1, 999)), 1);
    assert_eq!(bin_index(&ratio(998, 999)), 998);
    assert_eq!(bin_index(&ratio(1, 1000)), 0);
}

#[test]
fn bin_of_a_value_outside_the_range_is_an_end_bin() {
    assert_eq!(bin_index(&ratio(-7, 3)), 0);
    assert_eq!(bin_index(&ratio(7, 3)), 999);
    assert_eq!(bin_index(&ratio(i64::MIN, 1)), 0);
    assert_eq!(bin_index(&ratio(i64::MAX, 1)), 999);
}

#[test]
fn clamp_limits_to_the_unit_range() {
    assert_eq!(clamp(&ratio(-7, 3)), ratio(0, 1));
    assert_eq!(clamp(&ratio(7, 3)), ratio(1, 1));
    assert_eq!(clamp(&ratio(2, 3)), ratio(2, 3));
    assert_eq!(clamp(&ratio(0, 5)), ratio(0, 1));
    assert_eq!(clamp(&ratio(5, 5)), ratio(1, 1));
}

#[test]
fn otsu_of_nothing_is_zero() {
    let (threshold, variance) = otsu_threshold(&vec![]);
    assert_eq!(threshold, ratio(0, 1));
    assert_eq!(variance, Variance { num: 0, den: 1 });
}

#[test]
fn otsu_of_identical_values_is_the_value() {
    for n in [1usize, 2, 17, 100] {
        let (threshold, variance) = otsu_threshold(&repeated(ratio(3, 10), n));
        assert_eq!(threshold, ratio(3, 10));
        assert_eq!(variance, Variance { num: 0, den: 1 });
    }
}

#[test]
fn otsu_of_identical_values_outside_the_range_is_the_limit() {
    let (threshold, variance) = otsu_threshold(&repeated(ratio(5, 2), 4));
    assert_eq!(threshold, ratio(1, 1));
    assert_eq!(variance.num, 0);
    let (threshold, variance) = otsu_threshold(&repeated(ratio(-5, 2), 4));
    assert_eq!(threshold, ratio(0, 1));
    assert_eq!(variance.num, 0);
}

#[test]
fn otsu_of_different_values_in_one_bin_is_zero() {
    // 0.1000 and 0.0995 both fall into bin 99: no split separates them, and
    // they are not one value.
    let values = vec![ratio(1000, 10000), ratio(995, 10000), ratio(1000, 10000)];
    let (threshold, variance) = otsu_threshold(&values);
    assert_eq!(threshold, ratio(0, 1));
    assert_eq!(variance, Variance { num: 0, den: 1 });
    // One half and a little more, in either order.
    let (threshold, _) = otsu_threshold(&vec![ratio(1, 2), ratio(5001, 10000)]);
    assert_eq!(threshold, ratio(0, 1));
    let (threshold, _) = otsu_threshold(&vec![ratio(5001, 10000), ratio(1, 2)]);
    assert_eq!(threshold, ratio(0, 1));
    // The same value in other terms is another fraction.
    let (threshold, _) = otsu_threshold(&vec![ratio(1, 2), ratio(2, 4)]);
    assert_eq!(threshold, ratio(0, 1));
}

#[test]
fn otsu_of_values_that_are_one_value_in_the_range() {
    // Above the range every value counts as one, below it as zero.
    let (threshold, variance) = otsu_threshold(&vec![ratio(3, 2), ratio(5, 2), ratio(1, 1)]);
    assert_eq!(threshold, ratio(1, 1));
    assert_eq!(variance, Variance { num: 0, den: 1 });
    let (threshold, _) = otsu_threshold(&vec![ratio(-1, 2), ratio(0, 7), ratio(-3, 1)]);
    assert_eq!(threshold, ratio(0, 1));
}

#[test]
fn otsu_is_the_same_for_every_order_of_the_values() {
    let values = [ratio(1, 10), ratio(9, 10), ratio(1, 2), ratio(7, 3), ratio(-1, 3)];
    let (expected_threshold, expected_variance) = otsu_threshold(&values.to_vec());
    let mut count = 0;
    for a in 0..5 {
        for b in 0..5 {
            for c in 0..5 {
                for d in 0..5 {
                    for e in 0..5 {
                        let picked = [a, b, c, d, e];
                        if (0..5).all(|i| picked.contains(&i)) {
                            let arranged: Vec<Ratio> = picked.iter().map(|&i| values[i]).collect();
                            let (threshold, variance) = otsu_threshold(&arranged);
                            assert_eq!(threshold, expected_threshold);
                            assert_eq!(variance, expected_variance);
                            count += 1;
                        }
                    }
                }
            }
        }
    }
    assert_eq!(count, 120);
}

#[test]
fn otsu_splits_two_clusters_between_them() {
    let mut values = repeated(ratio(1, 10), 100);
    values.extend(repeated(ratio(9, 10), 100));
    let (threshold, variance) = otsu_threshold(&values);
    assert_eq!(threshold, ratio(100, 999));
    assert!(ratio(1, 10).lt(&threshold));
    assert!(threshold.lt(&ratio(9, 10)));
    // 100 values in bin 99 and 100 in bin 899:
    // (100 * 100 * (899 - 99))^2 over 100 * 100.
    assert_eq!(variance, Variance { num: 64_000_000_000_000, den: 10_000 });
}

#[test]
fn otsu_does_not_depend_on_the_order_of_values() {
    let mut values = Vec::new();
    for i in 0..60 {
        values.push(if i % 3 == 0 { ratio(9, 10) } else { ratio(1, 10) });
    }
    let (threshold, variance) = otsu_threshold(&values);
    assert_eq!(threshold, ratio(100, 999));
    // 40 values in bin 99 and 20 in bin 899.
    assert_eq!(variance, Variance { num: (40u128 * 20 * 800) * (40 * 20 * 800), den: 800 });
}

#[test]
fn otsu_clamps_values_outside_the_range() {
    let outside = vec![ratio(-5, 1), ratio(-1, 3), ratio(7, 2), ratio(9, 4), ratio(-2, 7)];
    let clamped = vec![ratio(0, 1), ratio(0, 1), ratio(1, 1), ratio(1, 1), ratio(0, 1)];
    let (t_outside, v_outside) = otsu_threshold(&outside);
    let (t_clamped, v_clamped) = otsu_threshold(&clamped);
    assert_eq!(t_outside, ratio(1, 999));
    assert_eq!(t_outside, t_clamped);
    assert_eq!(v_outside, v_clamped);
    // 3 values in bin 0 and 2 in bin 999: (3 * 2 * 999)^2 over 3 * 2.
    assert_eq!(v_outside, Variance { num: 5994 * 5994, den: 6 });
}

#[test]
fn otsu_takes_the_first_of_equal_splits() {
    // Every split between bin 200 and bin 700 has the same variance.
    let values = vec![ratio(200, 999), ratio(700, 999)];
    let (threshold, variance) = otsu_threshold(&values);
    assert_eq!(threshold, ratio(201, 999));
    assert_eq!(variance, Variance { num: 500 * 500, den: 1 });
}

#[test]
fn otsu_of_three_clusters_takes_the_best_split() {
    // Bins 0, 100 and 999: splitting off the far cluster is best.
    let mut values = repeated(ratio(0, 1), 10);
    values.extend(repeated(ratio(100, 999), 10));
    values.extend(repeated(ratio(1, 1), 10));
    let (threshold, variance) = otsu_threshold(&values);
    assert_eq!(threshold, ratio(101, 999));
    // Lower class: 20 values, moment 1000. All: 30 values, moment 10990.
    let d: i128 = 1000 * 30 - 10990 * 20;
    assert_eq!(variance, Variance { num: (d * d) as u128, den: 20 * 10 });
}

#[test]
fn otsu_accepts_the_greatest_number_of_values() {
    let mut values = repeated(ratio(0, 1), MAX_SAMPLES / 2);
    values.extend(repeated(ratio(1, 1), MAX_SAMPLES / 2));
    let (threshold, variance) = otsu_threshold(&values);
    assert_eq!(threshold, ratio(1, 999));
    let half = (MAX_SAMPLES / 2) as u128;
    assert_eq!(variance, Variance { num: (half * half * 999) * (half * half * 999), den: half * half });
}

#[test]
fn first_best_variance_is_the_first_greatest_positive() {
    let v = |num: u128, den: u128| Variance { num, den };
    assert_eq!(first_best_variance(&vec![v(1, 2), v(3, 4), v(6, 8), v(2, 3)]), Some(1));
    assert_eq!(first_best_variance(&vec![v(0, 1), v(0, 7), v(1, 1000)]), Some(2));
    assert_eq!(first_best_variance(&vec![v(0, 1), v(0, 7)]), None);
    assert_eq!(first_best_variance(&vec![]), None);
}

#[test]
fn ranged_otsu_of_nothing_is_zero() {
    let (threshold, variance) = otsu_threshold_ranged(&vec![]);
    assert_eq!(threshold, ratio(0, 1));
    assert_eq!(variance, Variance { num: 0, den: 1 });
}

#[test]
fn ranged_otsu_of_identical_values_is_the_value() {
    for v in [7, 0, -12, i32::MAX, i32::MIN] {
        let (threshold, variance) = otsu_threshold_ranged(&vec![v; 5]);
        assert_eq!(threshold, ratio(v as i64, 1));
        assert_eq!(variance, Variance { num: 0, den: 1 });
    }
}

#[test]
fn ranged_otsu_splits_two_clusters_between_them() {
    let mut values = vec![10; 100];
    values.extend(vec![90; 100]);
    let (threshold, variance) = otsu_threshold_ranged(&values);
    // The least value lies in bin 0 and the greatest in the last: the split
    // falls after bin 0, at 10 + 80 / 999.
    assert_eq!(threshold, ratio(10 * 999 + 80, 999));
    assert!(ratio(10, 1).lt(&threshold));
    assert!(threshold.lt(&ratio(90, 1)));
    assert_eq!(variance, Variance { num: 9_990_000 * 9_990_000, den: 10_000 });
}

#[test]
fn ranged_otsu_of_negative_values() {
    let (threshold, _) = otsu_threshold_ranged(&vec![-50, 150, -50]);
    assert_eq!(threshold, ratio(-50 * 999 + 200, 999));
    assert!(ratio(-50, 1).lt(&threshold));
    assert!(threshold.lt(&ratio(150, 1)));
}

#[test]
fn ranged_otsu_of_three_clusters_takes_the_best_split() {
    // As fractions of the range: 0, 0.1 and 1, in bins 0, 99 and 999.
    let (threshold, variance) = otsu_threshold_ranged(&vec![0, 1000, 100, 0, 1000, 100]);
    assert_eq!(threshold, ratio(100 * 1000, 999));
    assert_eq!(variance, Variance { num: 7596 * 7596, den: 8 });
}

#[test]
fn ranged_otsu_over_the_widest_range() {
    let (threshold, variance) = otsu_threshold_ranged(&vec![i32::MAX, i32::MIN]);
    assert_eq!(threshold, ratio(i32::MIN as i64 * 999 + u32::MAX as i64, 999));
    assert_eq!(variance, Variance { num: 999 * 999, den: 1 });
}

#[test]
fn otsu_of_identical_values_has_no_limit_on_their_number() {
    let (threshold, variance) = otsu_threshold(&repeated(ratio(3, 10), MAX_SAMPLES + 1));
    assert_eq!(threshold, ratio(3, 10));
    assert_eq!(variance, Variance { num: 0, den: 1 });
    let mut above = repeated(ratio(3, 2), MAX_SAMPLES);
    above.push(ratio(7, 2));
    let (threshold, variance) = otsu_threshold(&above);
    assert_eq!(threshold, ratio(1, 1));
    assert_eq!(variance, Variance { num: 0, den: 1 });
    let (threshold, variance) = otsu_threshold_ranged(&vec![-4; MAX_SAMPLES + 1]);
    assert_eq!(threshold, ratio(-4, 1));
    assert_eq!(variance, Variance { num: 0, den: 1 });
}
