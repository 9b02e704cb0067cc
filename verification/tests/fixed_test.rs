use avila_telemetry::fixed::Fixed;
use avila_telemetry::ranking::sorted;
use avila_telemetry::series::{
    every_defined, extremes_of_range, mean_of_range, std_dev_of_range, sum_of_range,
};

fn fx(n: i64) -> Fixed {
    Fixed::from_nanos(n)
}

#[test]
fn addition_and_subtraction_are_exact() {
    assert_eq!(fx(1_500_000_000).add(fx(2_250_000_000)).nanos(), Some(3_750_000_000));
    assert_eq!(fx(1_500_000_000).sub(fx(2_250_000_000)).nanos(), Some(-750_000_000));
}

#[test]
fn results_out_of_range_are_undefined() {
    assert_eq!(fx(i64::MAX).add(fx(1)).nanos(), None);
    assert_eq!(fx(i64::MIN).sub(fx(1)).nanos(), None);
    assert_eq!(fx(i64::MAX).mul(fx(2_000_000_000)).nanos(), None);
    assert_eq!(fx(i64::MAX).div(fx(500_000_000)).nanos(), None);
    assert_eq!(fx(i64::MIN).abs().nanos(), None);
    assert_eq!(Fixed::from_int(i64::MAX).nanos(), None);
    assert_eq!(fx(i64::MAX).add(fx(0)).nanos(), Some(i64::MAX));
}

#[test]
fn undefined_propagates() {
    let u = Fixed::undefined();
    assert!(!u.is_defined());
    assert_eq!(u.add(fx(1)).nanos(), None);
    assert_eq!(fx(1).sub(u).nanos(), None);
    assert_eq!(u.mul(fx(0)).nanos(), None);
    assert_eq!(fx(0).div(u).nanos(), None);
    assert_eq!(u.sqrt().nanos(), None);
    assert_eq!(u.abs().nanos(), None);
    assert_eq!(u.div_count(3).nanos(), None);
}

#[test]
fn comparisons_with_undefined_are_false() {
    let u = Fixed::undefined();
    assert!(!u.lt(fx(1)));
    assert!(!fx(1).lt(u));
    assert!(!u.le(u));
    assert!(!u.is_zero());
    assert!(fx(1).lt(fx(2)));
    assert!(!fx(2).lt(fx(2)));
    assert!(fx(2).le(fx(2)));
    assert!(fx(0).is_zero());
}

#[test]
fn multiplication_rounds_toward_zero() {
    assert_eq!(fx(1_500_000_000).mul(fx(2_000_000_000)).nanos(), Some(3_000_000_000));
    assert_eq!(fx(3).mul(fx(500_000_000)).nanos(), Some(1));
    assert_eq!(fx(-3).mul(fx(500_000_000)).nanos(), Some(-1));
    assert_eq!(fx(1).mul(fx(1)).nanos(), Some(0));
    assert_eq!(fx(-2_000_000_000).mul(fx(-2_000_000_000)).nanos(), Some(4_000_000_000));
}

#[test]
fn division_rounds_toward_zero() {
    assert_eq!(fx(1_000_000_000).div(fx(3_000_000_000)).nanos(), Some(333_333_333));
    assert_eq!(fx(-1_000_000_000).div(fx(3_000_000_000)).nanos(), Some(-333_333_333));
    assert_eq!(fx(1_000_000_000).div(fx(-3_000_000_000)).nanos(), Some(-333_333_333));
    assert_eq!(fx(-1_000_000_000).div(fx(-3_000_000_000)).nanos(), Some(333_333_333));
    assert_eq!(fx(7_000_000_000).div(fx(2_000_000_000)).nanos(), Some(3_500_000_000));
}

#[test]
fn division_by_zero_is_undefined() {
    assert_eq!(fx(1_000_000_000).div(fx(0)).nanos(), None);
    assert_eq!(fx(0).div(fx(0)).nanos(), None);
    assert_eq!(fx(1_000_000_000).div_count(0).nanos(), None);
}

#[test]
fn division_by_a_count() {
    assert_eq!(fx(10_000_000_000).div_count(4).nanos(), Some(2_500_000_000));
    assert_eq!(fx(-10).div_count(3).nanos(), Some(-3));
    assert_eq!(fx(10).div_count(3).nanos(), Some(3));
}

#[test]
fn square_root_rounds_down() {
    assert_eq!(fx(4_000_000_000).sqrt().nanos(), Some(2_000_000_000));
    assert_eq!(fx(2_000_000_000).sqrt().nanos(), Some(1_414_213_562));
    assert_eq!(fx(0).sqrt().nanos(), Some(0));
    assert_eq!(fx(1).sqrt().nanos(), Some(31_622));
    assert_eq!(fx(-1).sqrt().nanos(), None);
    assert_eq!(fx(i64::MAX).sqrt().nanos(), Some(96_038_388_349_944));
}

#[test]
fn absolute_value() {
    assert_eq!(fx(-5).abs().nanos(), Some(5));
    assert_eq!(fx(5).abs().nanos(), Some(5));
}

#[test]
fn whole_numbers_and_counts() {
    assert_eq!(Fixed::from_int(-3).nanos(), Some(-3_000_000_000));
    assert_eq!(Fixed::from_count(7).nanos(), Some(7_000_000_000));
    assert_eq!(Fixed::from_count(usize::MAX).nanos(), None);
}

#[test]
fn sums_do_not_fail_on_intermediate_values() {
    let values = vec![fx(i64::MAX), fx(i64::MAX), fx(i64::MIN), fx(i64::MIN), fx(5)];
    assert_eq!(sum_of_range(&values, 0, 5).nanos(), Some(3));
    assert_eq!(sum_of_range(&values, 0, 2).nanos(), None);
    assert_eq!(sum_of_range(&values, 1, 3).nanos(), Some(-1));
    assert_eq!(sum_of_range(&values, 2, 2).nanos(), Some(0));
    assert_eq!(mean_of_range(&values, 0, 2, 2).nanos(), Some(i64::MAX));
}

#[test]
fn means_divide_by_the_given_count() {
    let values: Vec<Fixed> = (1..=5).map(Fixed::from_int).collect();
    assert_eq!(mean_of_range(&values, 0, 5, 5).nanos(), Some(3_000_000_000));
    assert_eq!(mean_of_range(&values, 0, 5, 4).nanos(), Some(3_750_000_000));
    assert_eq!(mean_of_range(&values, 2, 5, 3).nanos(), Some(4_000_000_000));
    assert_eq!(mean_of_range(&values, 0, 5, 0).nanos(), None);
}

#[test]
fn standard_deviation_of_a_range() {
    let values: Vec<Fixed> = (3..=5).map(Fixed::from_int).collect();
    assert_eq!(std_dev_of_range(&values, 0, 3).nanos(), Some(816_496_580));
    assert_eq!(std_dev_of_range(&values, 1, 2).nanos(), Some(0));
    assert_eq!(std_dev_of_range(&values, 1, 1).nanos(), None);
}

#[test]
fn standard_deviation_reaches_the_edge_of_the_range() {
    // squares and their total are exact, whatever the distances
    let far = vec![Fixed::from_int(0), Fixed::from_int(10_000_000)];
    assert_eq!(std_dev_of_range(&far, 0, 2).nanos(), Some(5_000_000_000_000_000));
    let edge = vec![fx(i64::MIN + 1), fx(i64::MAX)];
    assert_eq!(std_dev_of_range(&edge, 0, 2).nanos(), Some(i64::MAX));
    let many: Vec<Fixed> = (0..1000).map(|i| if i % 2 == 0 { fx(i64::MAX) } else { fx(-i64::MAX) }).collect();
    assert_eq!(std_dev_of_range(&many, 0, 1000).nanos(), Some(i64::MAX));
}

#[test]
fn extremes_of_a_range() {
    let values = vec![fx(3), fx(-4), fx(5), Fixed::undefined()];
    let (low, high) = extremes_of_range(&values, 0, 3);
    assert_eq!((low.nanos(), high.nanos()), (Some(-4), Some(5)));
    let (low, high) = extremes_of_range(&values, 0, 4);
    assert_eq!((low.nanos(), high.nanos()), (None, None));
    let (low, high) = extremes_of_range(&values, 2, 2);
    assert_eq!((low.nanos(), high.nanos()), (None, None));
    assert!(every_defined(&values[..3].to_vec()));
    assert!(!every_defined(&values));
}

#[test]
fn sorting_puts_undefined_first() {
    let values = vec![fx(3), Fixed::undefined(), fx(-4), fx(3), fx(0)];
    let order: Vec<Option<i64>> = sorted(&values).iter().map(|x| x.nanos()).collect();
    assert_eq!(order, vec![None, Some(-4), Some(0), Some(3), Some(3)]);
    assert!(sorted(&Vec::new()).is_empty());
}
