use qdc_core::bits::{at_most, below, is_nan, replace_nan_zero};
use qdc_core::calendar::{civil_to_days, ymdhms_to_ns};
use qdc_core::filter::{
    filtfilt_edge, odd_extension, reversed, sosfiltfilt_edge, trim_edges, Tap,
};
use qdc_core::filter_design::{split_real_complex, zpk2sos_butter_lp, SectionPlan};

const VALUES: [f64; 11] = [
    f64::NEG_INFINITY,
    -2.5,
    -1.0,
    -f64::MIN_POSITIVE,
    -0.0,
    0.0,
    5e-324,
    1.0,
    2.5,
    f64::INFINITY,
    f64::NAN,
];

#[test]
fn bits_compare_as_doubles_do() {
    for a in VALUES {
        assert_eq!(is_nan(a.to_bits()), a.is_nan());
        for b in VALUES {
            assert_eq!(at_most(a.to_bits(), b.to_bits()), a <= b);
            assert_eq!(below(a.to_bits(), b.to_bits()), a < b);
        }
    }
    assert!(is_nan((-f64::NAN).to_bits()));
}

#[test]
fn nan_becomes_zero() {
    assert_eq!(replace_nan_zero(f64::NAN.to_bits()), 0);
    for v in VALUES {
        if !v.is_nan() {
            assert_eq!(replace_nan_zero(v.to_bits()), v.to_bits());
        }
    }
}

#[test]
fn days_from_the_epoch() {
    assert_eq!(civil_to_days(1970, 1, 1), 0);
    assert_eq!(civil_to_days(1969, 12, 31), -1);
    assert_eq!(civil_to_days(2000, 2, 29), 11_016);
    assert_eq!(civil_to_days(2000, 3, 1), 11_017);
    assert_eq!(civil_to_days(1900, 3, 1) - civil_to_days(1900, 2, 28), 1);
    assert_eq!(civil_to_days(1, 1, 1), -719_162);
    assert_eq!(civil_to_days(0, 3, 1), -719_468);
    assert_eq!(civil_to_days(i32::MIN, 1, 1) < civil_to_days(i32::MAX, 12, 31), true);
}

#[test]
fn days_run_on_through_four_centuries() {
    let lengths = |y: i32| {
        let feb = if (y % 4 == 0 && y % 100 != 0) || y % 400 == 0 { 29 } else { 28 };
        [31, feb, 31, 30, 31, 30, 31, 31, 30, 31, 30, 31]
    };
    let mut want = civil_to_days(1700, 1, 1);
    for y in 1700..2100 {
        for (m, days) in lengths(y).iter().enumerate() {
            for d in 1..=*days {
                assert_eq!(civil_to_days(y, m as u32 + 1, d), want);
                want += 1;
            }
        }
    }
}

#[test]
fn instants_in_nanoseconds() {
    assert_eq!(ymdhms_to_ns(1970, 1, 2, 3, 4, 5, 6), Some(97_445_000_000_006));
    assert_eq!(ymdhms_to_ns(2262, 4, 11, 23, 47, 16, 854_775_807), Some(i64::MAX));
    assert_eq!(ymdhms_to_ns(2262, 4, 11, 23, 47, 16, 854_775_808), None);
    assert_eq!(ymdhms_to_ns(1677, 9, 21, 0, 12, 43, 145_224_192), Some(i64::MIN));
    assert_eq!(ymdhms_to_ns(1970, 13, 1, 0, 0, 0, 0), None);
    assert_eq!(ymdhms_to_ns(i32::MIN, 1, 1, 0, 0, 0, 0), None);
}

#[test]
fn signal_is_reflected_at_both_ends() {
    assert_eq!(
        odd_extension(4, 2),
        vec![
            Tap::Start(2),
            Tap::Start(1),
            Tap::Sample(0),
            Tap::Sample(1),
            Tap::Sample(2),
            Tap::Sample(3),
            Tap::End(2),
            Tap::End(1),
        ]
    );
    assert_eq!(odd_extension(1, 0), vec![Tap::Sample(0)]);
}

#[test]
fn padding_of_a_cascade() {
    let one = 1.0f64.to_bits();
    let none = (-0.0f64).to_bits();
    assert_eq!(sosfiltfilt_edge(&[one, one, one], &[one, one, one]), 21);
    assert_eq!(sosfiltfilt_edge(&[one, one, 0], &[none, one, one]), 18);
    assert_eq!(sosfiltfilt_edge(&[one, one, 0], &[one, one, one]), 21);
    assert_eq!(sosfiltfilt_edge(&[], &[]), 3);
    assert_eq!(filtfilt_edge(1, 2), 6);
    assert_eq!(filtfilt_edge(3, 2), 9);
}

#[test]
fn padding_is_cut_off_again() {
    let whole = odd_extension(5, 3);
    let back = reversed(&reversed(&whole));
    assert_eq!(reversed(&[1, 2, 3]), vec![3, 2, 1]);
    assert_eq!(
        trim_edges(&back, 3, 5),
        (0..5).map(Tap::Sample).collect::<Vec<_>>()
    );
}

fn pairs(n: usize, of: &[(usize, usize)]) -> Vec<Vec<bool>> {
    let mut t = vec![vec![false; n]; n];
    for (i, j) in of {
        t[*i][*j] = true;
        t[*j][*i] = true;
    }
    t
}

#[test]
fn poles_are_sorted_out() {
    // Five poles of which the middle one is real.
    let (reals, tops) =
        split_real_complex(&[false, false, true, false, false], &pairs(5, &[(0, 4), (1, 3)]));
    assert_eq!(reals, vec![2]);
    assert_eq!(tops, vec![0, 1]);
    // A pole without a partner stands alone.
    let (reals, tops) = split_real_complex(&[false, false], &pairs(2, &[]));
    assert_eq!(reals, vec![]);
    assert_eq!(tops, vec![0, 1]);
    // A partner is taken once.
    let (_, tops) = split_real_complex(&[false, false, false], &pairs(3, &[(0, 2), (1, 2)]));
    assert_eq!(tops, vec![0, 1]);
}

#[test]
fn sections_by_ascending_magnitude() {
    let mags: Vec<u64> = [0.9f64, 0.5, 0.7].iter().map(|m| m.to_bits()).collect();
    assert_eq!(
        zpk2sos_butter_lp(5, &mags),
        vec![
            SectionPlan { group: 1, zeros: 2, gain: true },
            SectionPlan { group: 2, zeros: 2, gain: false },
            SectionPlan { group: 0, zeros: 1, gain: false },
        ]
    );
    let even = zpk2sos_butter_lp(6, &mags);
    assert_eq!(even.iter().map(|s| s.zeros).sum::<usize>(), 6);
    // Equal magnitudes keep their order.
    let same = vec![1.0f64.to_bits(); 3];
    assert_eq!(
        zpk2sos_butter_lp(6, &same).iter().map(|s| s.group).collect::<Vec<_>>(),
        vec![0, 1, 2]
    );
    assert_eq!(zpk2sos_butter_lp(0, &[]), vec![]);
}
