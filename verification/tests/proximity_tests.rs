use energy_graph::proximity::{
    distance, intensity, node_size, visibility_threshold, within_threshold, Point, SCALE,
};

fn pt(x: i64, y: i64) -> Point {
    Point::new(x, y)
}

#[test]
fn distance_to_self_is_zero() {
    let p = pt(250_000, 300_000);
    assert_eq!(distance(&p, &p), 0);
    let q = pt(-400_000, 1_000_000);
    assert_eq!(distance(&q, &q), 0);
}

#[test]
fn distance_is_symmetric() {
    let p = pt(250_000, 300_000);
    let q = pt(900_000, -100_000);
    assert_eq!(distance(&p, &q), distance(&q, &p));
    let r = pt(0, 0);
    let s = pt(1_000_000, 1_000_000);
    assert_eq!(distance(&r, &s), distance(&s, &r));
}

#[test]
fn distance_exact_three_four_five() {
    // A 3-4-5 triangle scaled into fixed point: the root is exact.
    let p = pt(0, 0);
    let q = pt(30_000, 40_000);
    assert_eq!(distance(&p, &q), 50_000);
}

#[test]
fn threshold_of_one_is_half() {
    // One node: 1 / 2^(log10(1) + 1) = 1/2 exactly.
    assert_eq!(visibility_threshold(1), SCALE / 2);
}

#[test]
fn threshold_of_zero_falls_back_to_one_node() {
    assert_eq!(visibility_threshold(0), visibility_threshold(1));
}

#[test]
fn threshold_always_positive_and_at_most_half() {
    for n in [1u64, 2, 3, 9, 10, 99, 100, 1_000, 65_536, 100_000, 1_000_000_000] {
        let t = visibility_threshold(n);
        assert!(t >= 1, "threshold of {n} is zero");
        assert!(t <= SCALE / 2, "threshold of {n} above one half");
    }
}

#[test]
fn threshold_of_ten_is_close_to_one_quarter() {
    // 1 / 2^(log10(10) + 1) = 1/4; the fixed-point exponent is within 5e-6.
    let t = visibility_threshold(10);
    assert!((248_000..=252_000).contains(&t), "got {t}");
}

#[test]
fn threshold_of_hundred_thousand_is_close_to_one_sixty_fourth() {
    // log10(100000) = 5, so the model value is 1/64 = 0.015625.
    let t = visibility_threshold(100_000);
    assert!((15_300..=16_000).contains(&t), "got {t}");
}

#[test]
fn intensity_of_a_point_with_itself_is_full() {
    let p = pt(123_456, 654_321);
    assert_eq!(intensity(&p, &p, 5), SCALE);
    assert_eq!(intensity(&p, &p, 100_000), SCALE);
}

#[test]
fn intensity_is_zero_at_the_far_corner() {
    // Distance sqrt(2): beyond the visibility band for every count.
    let p = pt(0, 0);
    let q = pt(1_000_000, 1_000_000);
    assert_eq!(intensity(&p, &q, 2), 0);
    assert_eq!(intensity(&p, &q, 100_000), 0);
}

#[test]
fn intensity_of_very_close_pair_is_close_to_full() {
    // Two nodes at distance 0.01 with a count of 2.
    let p = pt(0, 0);
    let q = pt(0, 10_000);
    let w = intensity(&p, &q, 2);
    assert!(w > 950_000, "got {w}");
    assert!(w <= SCALE);
}

#[test]
fn within_threshold_is_the_raw_distance_test() {
    let t = visibility_threshold(2);
    let p = pt(0, 0);
    assert!(within_threshold(&p, &pt(0, 10_000), t));
    assert!(!within_threshold(&p, &pt(1_000_000, 1_000_000), t));
    // Just inside and just outside the threshold itself.
    assert!(within_threshold(&p, &pt(0, (t - 1) as i64), t));
    assert!(!within_threshold(&p, &pt(0, t as i64), t));
}

#[test]
fn candidate_at_the_threshold_boundary_still_has_intensity() {
    // The inclusion test uses the raw distance; the intensity band reaches
    // sqrt(2) times farther, so a pair just inside the threshold keeps a
    // positive intensity.
    let t = visibility_threshold(2);
    let p = pt(0, 0);
    let q = pt(0, (t - 1) as i64);
    assert!(within_threshold(&p, &q, t));
    assert!(intensity(&p, &q, 2) > 0);
}

#[test]
fn node_size_of_one_node_is_hundred_units() {
    // 100 / sqrt(1) = 100 coordinate units.
    assert_eq!(node_size(1), 100 * SCALE);
}

#[test]
fn node_size_shrinks_with_count() {
    // 100 / sqrt(10000) = 1 coordinate unit.
    assert_eq!(node_size(10_000), SCALE);
    assert!(node_size(100_000) < node_size(10_000));
}

#[test]
fn threshold_of_two_is_close_to_the_model_value() {
    // 1 / 2^(log10(2) + 1) is about 0.4057.
    let t = visibility_threshold(2);
    assert!((402_000..=409_000).contains(&t), "got {t}");
}
