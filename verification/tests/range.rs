use ksp_commnet_calculator::range::{isqrt, Range, STRENGTH_ONE};

#[test]
fn isqrt_rounds_down() {
    assert_eq!(isqrt(0), 0);
    assert_eq!(isqrt(1), 1);
    assert_eq!(isqrt(3), 1);
    assert_eq!(isqrt(4), 2);
    assert_eq!(isqrt(10_000_000), 3162);
    assert_eq!(isqrt(u128::MAX), u64::MAX);
    assert_eq!(isqrt((u64::MAX as u128) * (u64::MAX as u128)), u64::MAX);
    assert_eq!(isqrt((u64::MAX as u128) * (u64::MAX as u128) - 1), u64::MAX - 1);
}

#[test]
fn range_between_is_the_root_of_the_product() {
    assert_eq!(Range::between(5000, 2000).max_distance(), 3162);
    assert_eq!(Range::between(2000, 5000).max_distance(), 3162);
    assert_eq!(Range::between(250_000_000_000, 100_000_000_000).max_distance(), 158_113_883_008);
    assert_eq!(Range::between(0, 7).max_distance(), 0);
    assert_eq!(Range::between(u64::MAX, u64::MAX).max_distance(), u64::MAX);
}

#[test]
fn strength_is_full_at_the_origin_and_gone_at_the_reach() {
    let r = Range::new(1000);
    assert_eq!(r.max_distance(), 1000);
    assert_eq!(r.strength_at(0), Some(STRENGTH_ONE));
    assert_eq!(r.strength_at(1000), None);
    assert_eq!(r.strength_at(1001), None);
    assert_eq!(r.strength_at(i64::MAX), None);
}

#[test]
fn strength_before_the_origin_is_full() {
    assert_eq!(Range::new(1000).strength_at(-1), Some(STRENGTH_ONE));
    assert_eq!(Range::new(0).strength_at(i64::MIN), Some(STRENGTH_ONE));
}

#[test]
fn strength_follows_the_curve() {
    let r = Range::new(1000);
    // ratio 1/2: 3/4 - 2/8 = 1/2
    assert_eq!(r.strength_at(500), Some(500_000));
    // ratio 3/4: 27/16 - 54/64 = 27/32
    assert_eq!(r.strength_at(250), Some(843_750));
    // ratio 1/4: 3/16 - 2/64 = 5/32
    assert_eq!(r.strength_at(750), Some(156_250));
    // ratio 1/1000: 3e-6 - 2e-9, rounded down
    assert_eq!(r.strength_at(999), Some(2));
}

#[test]
fn strength_of_a_link_without_reach_is_none() {
    assert_eq!(Range::new(0).strength_at(0), None);
    assert_eq!(Range::new(0).strength_at(5), None);
}

#[test]
fn strength_never_grows_with_the_distance() {
    let r = Range::new(977);
    let mut last = STRENGTH_ONE;
    for d in 0..977 {
        let s = r.strength_at(d).unwrap();
        assert!(s <= last);
        last = s;
    }
}

#[test]
fn strength_on_the_longest_link() {
    let r = Range::new(u64::MAX);
    assert_eq!(r.strength_at(0), Some(STRENGTH_ONE));
    assert_eq!(r.strength_at(i64::MAX), Some(500_000));
}
