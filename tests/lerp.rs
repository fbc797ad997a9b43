use piano::{inv_lerp, lerp, lerp_as, quadratic_interpolate_as, ONE};

#[test]
fn test_lerp_as() {
    // positions 3.2 down to 0.1 in tenths, mapped from [3.2, 0] onto [2, 3]
    const LEN: i64 = 32;
    for i in 0..LEN {
        let b = LEN - i;
        let out = lerp_as(b, LEN, 0, 2 * ONE, 3 * ONE);
        assert_eq!(out, 2 * ONE + i * ONE / 32);
    }
}

#[test]
fn inv_lerp_gives_fraction() {
    assert_eq!(inv_lerp(5, 0, 10), ONE / 2);
    assert_eq!(inv_lerp(0, 0, 10), 0);
    assert_eq!(inv_lerp(10, 0, 10), ONE);
    // reversed range
    assert_eq!(inv_lerp(25, 100, 0), 3 * ONE / 4);
    // rounded to nearest
    assert_eq!(inv_lerp(1, 0, 3), 21845);
    assert_eq!(inv_lerp(2, 0, 3), 43691);
}

#[test]
fn lerp_maps_fraction() {
    assert_eq!(lerp(ONE / 2, 100, 200), 150);
    assert_eq!(lerp(ONE / 4, 200, 100), 175);
    assert_eq!(lerp(0, -7, 9), -7);
    assert_eq!(lerp(ONE, -7, 9), 9);
    // -100 / 3 to the nearest integer
    assert_eq!(lerp(ONE / 3, 0, -100), -33);
}

#[test]
fn lerp_as_rounds_to_nearest() {
    assert_eq!(lerp_as(1, 0, 3, 0, 10), 3);
    assert_eq!(lerp_as(1, 0, 3, 10, 0), 7);
    assert_eq!(lerp_as(75000, 150000, 0, 19661, 0), 9831);
    // halves go up
    assert_eq!(lerp_as(1, 0, 2, 0, 1), 1);
}

#[test]
fn quadratic_is_eased() {
    // halfway in time gives a quarter of the way in value
    assert_eq!(quadratic_interpolate_as(50, 100, 0, 0, 4000), 1000);
    assert_eq!(quadratic_interpolate_as(100, 100, 0, 0, 4000), 0);
    assert_eq!(quadratic_interpolate_as(0, 100, 0, 0, 4000), 4000);
    assert_eq!(quadratic_interpolate_as(90, 100, 0, 0, 32768), 328);
}

#[test]
fn interpolation_outside_the_range() {
    assert_eq!(inv_lerp(15, 0, 10), 3 * ONE / 2);
    assert_eq!(inv_lerp(-5, 0, 10), -ONE / 2);
    assert_eq!(lerp(2 * ONE, 100, 200), 300);
    assert_eq!(lerp(-ONE, 100, 200), 0);
    assert_eq!(lerp(inv_lerp(30, 10, 20), 10, 20), 30);
    assert_eq!(lerp_as(-1, 0, 3, 0, 30), -10);
    assert_eq!(quadratic_interpolate_as(200, 100, 0, 0, 4000), 4000);
    assert_eq!(quadratic_interpolate_as(-100, 100, 0, 0, 4000), 16000);
}
