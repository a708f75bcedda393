use rps_arena::fixed::UNIT;
use rps_arena::revolvingrandom::{RevolvingRandom, SIZE};

fn counting() -> Vec<i64> {
    (0..SIZE as i64).map(|i| i * 7 % UNIT).collect()
}

fn constant(sample: i64) -> RevolvingRandom {
    RevolvingRandom::from_samples(vec![sample; SIZE]).unwrap()
}

#[test]
fn one_revolution_returns_the_buffer_in_order_then_repeats() {
    let data = counting();
    let mut source = RevolvingRandom::from_samples(data.clone()).unwrap();
    let first: Vec<i64> = (0..SIZE).map(|_| source.rand()).collect();
    assert_eq!(first, data);
    let second: Vec<i64> = (0..SIZE).map(|_| source.rand()).collect();
    assert_eq!(second, data);
}

#[test]
fn cursor_wraps_after_the_last_sample() {
    let mut data = vec![0i64; SIZE];
    data[0] = 11;
    data[1] = 22;
    data[SIZE - 1] = 33;
    let mut source = RevolvingRandom::from_samples(data).unwrap();
    assert_eq!(source.rand(), 11);
    assert_eq!(source.rand(), 22);
    for _ in 2..SIZE - 1 {
        assert_eq!(source.rand(), 0);
    }
    assert_eq!(source.rand(), 33);
    assert_eq!(source.rand(), 11);
}

#[test]
fn from_samples_wants_a_full_buffer() {
    assert!(RevolvingRandom::from_samples(vec![0; SIZE - 1]).is_none());
    assert!(RevolvingRandom::from_samples(vec![0; SIZE + 1]).is_none());
    assert!(RevolvingRandom::from_samples(Vec::new()).is_none());
    assert!(RevolvingRandom::from_samples(vec![0; SIZE]).is_some());
}

#[test]
fn from_samples_wants_fractions_of_one() {
    let mut data = vec![0i64; SIZE];
    data[500] = UNIT;
    assert!(RevolvingRandom::from_samples(data.clone()).is_none());
    data[500] = -1;
    assert!(RevolvingRandom::from_samples(data.clone()).is_none());
    data[500] = UNIT - 1;
    assert!(RevolvingRandom::from_samples(data).is_some());
}

#[test]
fn range_over_a_symmetric_interval() {
    assert_eq!(constant(500_000).range(-25_000, 25_000), 0);
    assert_eq!(constant(250_000).range(-25_000, 25_000), -12_500);
    assert_eq!(constant(0).range(-25_000, 25_000), -25_000);
    assert_eq!(constant(UNIT - 1).range(-25_000, 25_000), 24_999);
}

#[test]
fn range_rounds_toward_zero() {
    assert_eq!(constant(333_333).range(-1, 2), -1);
    assert_eq!(constant(999_999).range(-1, 2), 1);
}

#[test]
fn range_with_a_positive_lower_end_overshoots() {
    assert_eq!(constant(500_000).range(10_000, 20_000), 25_000);
    assert_eq!(constant(999_999).range(10_000, 20_000), 39_999);
}

#[test]
fn range_with_a_negative_upper_end_overshoots() {
    assert_eq!(constant(500_000).range(-20_000, -10_000), -5_000);
}

#[test]
fn range_saturates_at_the_coordinate_limit() {
    assert_eq!(constant(999_999).range(0, i64::MAX), 1_000_000_000_000);
    assert_eq!(constant(0).range(i64::MIN, 0), -1_000_000_000_000);
}

#[test]
fn range_advances_the_cursor_by_one() {
    let mut source = RevolvingRandom::from_samples(counting()).unwrap();
    let _ = source.range(-5, 5);
    assert_eq!(source.rand(), 7);
}

#[test]
fn fresh_source_holds_fractions_of_one_and_revolves() {
    let mut source = RevolvingRandom::new();
    let first: Vec<i64> = (0..SIZE).map(|_| source.rand()).collect();
    let second: Vec<i64> = (0..SIZE).map(|_| source.rand()).collect();
    assert_eq!(first, second);
    assert!(first.iter().all(|s| 0 <= *s && *s < UNIT));
    assert!(first.iter().any(|s| *s != first[0]));
}
