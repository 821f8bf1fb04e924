use tsp_rust::distance::Distance;
use tsp_rust::distance::ScaledDistance;
use tsp_rust::distance::DISTANCE_MAX;
use tsp_rust::distance::DISTANCE_MIN;
use tsp_rust::distance::SCALED_DISTANCE_MAX;
use tsp_rust::distance::SCALED_DISTANCE_MIN;
use tsp_rust::node::Node;

#[test]
fn limits_have_their_values() {
    assert_eq!(DISTANCE_MAX, i32::MAX >> 5);
    assert_eq!(DISTANCE_MIN, i32::MIN + (1 << 5));
    assert_eq!(SCALED_DISTANCE_MAX, i32::MAX);
    assert_eq!(SCALED_DISTANCE_MIN, i32::MIN);
}

#[test]
fn scaling_is_a_shift_by_five_bits() {
    assert_eq!(ScaledDistance::from_distance(Distance(7)), ScaledDistance(224));
    assert_eq!(ScaledDistance::from_i32(-3), ScaledDistance(-96));
    assert_eq!(ScaledDistance::from_distance(Distance(DISTANCE_MAX)), ScaledDistance(i32::MAX - 31));
    // Beyond the shiftable range the high bits are lost, as a shift loses them.
    assert_eq!(ScaledDistance::from_i32(DISTANCE_MAX + 1), ScaledDistance(i32::MIN));
    assert_eq!(ScaledDistance::from_i32(i32::MAX), ScaledDistance(-32));
}

#[test]
fn to_distance_rounds_down_and_rounded_up_rounds_up() {
    assert_eq!(ScaledDistance(224).to_distance(), Distance(7));
    assert_eq!(ScaledDistance(255).to_distance(), Distance(7));
    assert_eq!(ScaledDistance(-1).to_distance(), Distance(-1));
    assert_eq!(ScaledDistance(224).to_distance_rounded_up(), Distance(7));
    assert_eq!(ScaledDistance(225).to_distance_rounded_up(), Distance(8));
    assert_eq!(ScaledDistance(-33).to_distance_rounded_up(), Distance(-1));
    assert_eq!(ScaledDistance(i32::MAX).to_distance_rounded_up(), Distance(DISTANCE_MAX + 1));
}

#[test]
fn scaling_and_back_is_the_identity() {
    for d in [0, 1, 2, 31, 32, 1000, 1_000_000, DISTANCE_MAX - 1, DISTANCE_MAX] {
        assert_eq!(ScaledDistance::from_distance(Distance(d)).to_distance(), Distance(d));
    }
}

#[test]
fn one_unit_below_a_whole_rounds_up_to_it() {
    for d in [1, 2, 31, 32, 1000, 1_000_000, DISTANCE_MAX] {
        let below = ScaledDistance::from_distance(Distance(d)) - ScaledDistance(1);
        assert_eq!(below.to_distance_rounded_up(), Distance(d));
    }
}

#[test]
fn scaling_is_additive() {
    for (a, b) in [(0, 0), (1, 2), (1000, 2345), (DISTANCE_MAX - 5, 5), (-7, 3)] {
        assert_eq!(
            ScaledDistance::from_distance(Distance(a)) + ScaledDistance::from_distance(Distance(b)),
            ScaledDistance::from_distance(Distance(a) + Distance(b))
        );
    }
}

#[test]
fn operators_work_on_the_raw_values() {
    assert_eq!(Distance(5) + Distance(7), Distance(12));
    assert_eq!(Distance(5) - Distance(7), Distance(-2));
    assert_eq!(3 * Distance(7), Distance(21));
    assert_eq!(ScaledDistance(5) + ScaledDistance(7), ScaledDistance(12));
    assert_eq!(ScaledDistance(5) - ScaledDistance(7), ScaledDistance(-2));
    assert_eq!(-3 * ScaledDistance(7), ScaledDistance(-21));
    assert_eq!(ScaledDistance(7) / 2, ScaledDistance(3));
    assert_eq!(ScaledDistance(-7) / 2, ScaledDistance(-3));
    assert_eq!(ScaledDistance(7) / -2, ScaledDistance(-3));
    assert_eq!(Node(3) + 4, Node(7));
    assert_eq!(Node(7) - 4, Node(3));
}

#[test]
fn sums_start_from_zero() {
    assert_eq!(Distance::sum(&[]), Distance(0));
    assert_eq!(Distance::sum(&[Distance(3), Distance(4), Distance(-2)]), Distance(5));
    assert_eq!(ScaledDistance::sum(&[]), ScaledDistance(0));
    assert_eq!(
        ScaledDistance::sum(&[ScaledDistance(i32::MAX), ScaledDistance(5), ScaledDistance(-5)]),
        ScaledDistance(i32::MAX)
    );
    assert_eq!(Distance::default(), Distance(0));
    assert_eq!(ScaledDistance::default(), ScaledDistance(0));
}
