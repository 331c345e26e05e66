use stat_info::{fits_in_i32, Halves, Ratio, StatisticalInfo, StatsError};

const DATA: [i32; 14] = [7, 6, 6, 5, 5, 5, 5, 4, 4, 4, 2, 2, 2, 1];

fn half(h: Halves) -> f64 {
    h.twice as f64 / 2.0
}

fn opt_half(h: Option<Halves>) -> f64 {
    half(h.expect("quartile defined"))
}

fn ratio(r: Ratio) -> f64 {
    r.num as f64 / r.den as f64
}

fn stats(nums: &[i32]) -> StatisticalInfo {
    StatisticalInfo::new(nums).expect("non-empty input")
}

#[test]
fn test_one() {
    let mut stat_info = stats(&DATA);
    stat_info.mo.sort();

    assert_eq!(stat_info.mo, vec![5]);
    assert_eq!(ratio(stat_info.xavg), 4.142857142857143);
    assert_eq!(stat_info.xsum, 58);
    assert_eq!(half(stat_info.me), 4.5);
    assert_eq!(stat_info.xmin, 1);
    assert_eq!(stat_info.xmax, 7);
    assert_eq!(opt_half(stat_info.q1), 2f64);
    assert_eq!(opt_half(stat_info.q3), 5f64);
    assert_eq!(stat_info.r, 6);
    assert_eq!(opt_half(stat_info.qr), 3f64);
}

#[test]
fn lib_test_one() {
    let mut stat_info = stats(&DATA);
    stat_info.mo.sort();

    assert_eq!(stat_info.mo, vec![5]);
    assert_eq!(ratio(stat_info.xavg), 4.142857142857143);
    assert_eq!(half(stat_info.me), 4.5);
    assert_eq!(stat_info.xmin, 1);
    assert_eq!(stat_info.xmax, 7);
    assert_eq!(opt_half(stat_info.q1), 2f64);
    assert_eq!(opt_half(stat_info.q3), 5f64);
    assert_eq!(stat_info.r, 6);
    assert_eq!(opt_half(stat_info.qr), 3f64);
}

#[test]
fn empty_input_is_refused() {
    assert_eq!(StatisticalInfo::new(&[]).err(), Some(StatsError::EmptyInput));
}

#[test]
fn single_value() {
    let s = stats(&[42]);
    assert_eq!(s.xmin, 42);
    assert_eq!(s.xmax, 42);
    assert_eq!(s.xsum, 42);
    assert_eq!(ratio(s.xavg), 42.0);
    assert_eq!(half(s.me), 42.0);
    assert_eq!(s.mo, vec![42]);
    assert_eq!(s.r, 0);
    assert_eq!(s.q1, None);
    assert_eq!(s.q3, None);
    assert_eq!(s.qr, None);
}

#[test]
fn all_equal_values() {
    let s = stats(&[3, 3, 3, 3]);
    assert_eq!(s.mo, vec![3]);
    assert_eq!(ratio(s.xavg), 3.0);
    assert_eq!(half(s.me), 3.0);
    assert_eq!(opt_half(s.q1), 3.0);
    assert_eq!(opt_half(s.q3), 3.0);
    assert_eq!(s.r, 0);
    assert_eq!(opt_half(s.qr), 0.0);
}

#[test]
fn all_distinct_values_are_all_modes() {
    let s = stats(&[4, 2, 3, 1]);
    assert_eq!(s.mo, vec![1, 2, 3, 4]);
    assert_eq!(half(s.me), 2.5);
    assert_eq!(opt_half(s.q1), 1.5);
    assert_eq!(opt_half(s.q3), 3.5);
    assert_eq!(opt_half(s.qr), 2.0);
}

#[test]
fn two_values_split_in_halves() {
    let s = stats(&[5, 1]);
    assert_eq!(half(s.me), 3.0);
    assert_eq!(opt_half(s.q1), 1.0);
    assert_eq!(opt_half(s.q3), 5.0);
    assert_eq!(opt_half(s.qr), 4.0);
}

#[test]
fn three_values_leave_out_the_middle() {
    let s = stats(&[9, 2, 1]);
    assert_eq!(half(s.me), 2.0);
    assert_eq!(opt_half(s.q1), 1.0);
    assert_eq!(opt_half(s.q3), 9.0);
    assert_eq!(s.r, 8);
}

#[test]
fn odd_count_quartiles() {
    let s = stats(&[1, 2, 3, 4, 5, 6, 7]);
    assert_eq!(half(s.me), 4.0);
    assert_eq!(opt_half(s.q1), 2.0);
    assert_eq!(opt_half(s.q3), 6.0);
    assert_eq!(opt_half(s.qr), 4.0);
}

#[test]
fn single_mode_among_others() {
    let s = stats(&[3, 2, 1, 2]);
    assert_eq!(s.mo, vec![2]);
}

#[test]
fn tied_modes_come_ascending() {
    let s = stats(&[9, 9, -4, 0, -4, 7]);
    assert_eq!(s.mo, vec![-4, 9]);
    for m in &s.mo {
        assert_eq!([9, 9, -4, 0, -4, 7].iter().filter(|x| *x == m).count(), 2);
    }
}

#[test]
fn extremes_bound_every_value() {
    let data = [12, -7, 0, 33, 5, -7, 18];
    let s = stats(&data);
    assert_eq!(s.xmin, -7);
    assert_eq!(s.xmax, 33);
    for x in data {
        assert!(s.xmin <= x && x <= s.xmax);
    }
    assert_eq!(s.r, s.xmax - s.xmin);
    assert_eq!(s.r, 40);
}

#[test]
fn negative_values() {
    let s = stats(&[-3, -1, -2]);
    assert_eq!(s.xsum, -6);
    assert_eq!(ratio(s.xavg), -2.0);
    assert_eq!(half(s.me), -2.0);
}

#[test]
fn quartiles_bracket_median() {
    let data = [10, 1, 7, 3, 3, 8, 2, 9, 4];
    let s = stats(&data);
    assert!(opt_half(s.q1) <= half(s.me));
    assert!(half(s.me) <= opt_half(s.q3));
    assert_eq!(opt_half(s.qr), opt_half(s.q3) - opt_half(s.q1));
}

#[test]
fn order_of_input_does_not_matter() {
    let mut sorted = DATA;
    sorted.sort();
    let a = stats(&DATA);
    let b = stats(&sorted);
    assert_eq!(a.mo, b.mo);
    assert_eq!(a.me, b.me);
    assert_eq!(a.xmin, b.xmin);
    assert_eq!(a.xmax, b.xmax);
    assert_eq!(a.xsum, b.xsum);
    assert_eq!(a.xavg, b.xavg);
    assert_eq!(a.q1, b.q1);
    assert_eq!(a.q3, b.q3);
    assert_eq!(a.r, b.r);
    assert_eq!(a.qr, b.qr);
    let c = stats(&DATA);
    assert_eq!(a.mo, c.mo);
    assert_eq!(a.me, c.me);
}

#[test]
fn median_of_large_values_does_not_overflow() {
    let s = stats(&[i32::MAX, i32::MAX, 0, 0]);
    assert_eq!(half(s.me), i32::MAX as f64 / 2.0);
    assert_eq!(opt_half(s.q3), i32::MAX as f64);
}

#[test]
fn bounds_of_sum_and_range() {
    assert!(fits_in_i32(&[1, 2, 3]));
    assert!(fits_in_i32(&[]));
    assert!(!fits_in_i32(&[i32::MAX, 1]));
    assert!(!fits_in_i32(&[i32::MIN, -1]));
    assert!(!fits_in_i32(&[i32::MIN + 1, i32::MAX]));
    assert!(fits_in_i32(&[i32::MAX, 0]));
}
