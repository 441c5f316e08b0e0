use boid_defense::geom::{sqrt_ceil, div_toward_zero, distance_squared, Vector};

#[test]
fn sqrt_ceil_rounds_up() {
    assert_eq!(sqrt_ceil(0), 0);
    assert_eq!(sqrt_ceil(1), 1);
    assert_eq!(sqrt_ceil(2), 2);
    assert_eq!(sqrt_ceil(4), 2);
    assert_eq!(sqrt_ceil(5), 3);
    assert_eq!(sqrt_ceil(10_000_000_000), 100_000);
    assert_eq!(sqrt_ceil(10_000_000_001), 100_001);
}

#[test]
fn division_rounds_toward_zero() {
    assert_eq!(div_toward_zero(7, 2), 3);
    assert_eq!(div_toward_zero(-7, 2), -3);
    assert_eq!(div_toward_zero(0, 5), 0);
}

#[test]
fn with_length_rescales() {
    let v = Vector { x: 3000, y: 4000 };
    assert_eq!(v.length(), 5000);
    assert_eq!(v.with_length(1000), Vector { x: 600, y: 800 });
    assert_eq!(Vector { x: -3000, y: 4000 }.with_length(1000), Vector { x: -600, y: 800 });
}

#[test]
fn with_length_keeps_zero() {
    assert_eq!(Vector::zero().with_length(1000), Vector { x: 0, y: 0 });
}

#[test]
fn clamp_length_max_shortens_only_long_vectors() {
    let long = Vector { x: 6000, y: 8000 };
    assert_eq!(long.clamp_length_max(5000), Vector { x: 3000, y: 4000 });
    let short = Vector { x: 30, y: 40 };
    assert_eq!(short.clamp_length_max(5000), short);
}

#[test]
fn distance_squared_of_points() {
    let a = Vector { x: 1000, y: 2000 };
    let b = Vector { x: 4000, y: 6000 };
    assert_eq!(distance_squared(&a, &b), 25_000_000);
}

#[test]
fn with_length_is_accurate_for_tiny_vectors() {
    assert_eq!(Vector { x: 1, y: 1 }.with_length(1000), Vector { x: 707, y: 707 });
    assert_eq!(Vector { x: 0, y: -1 }.with_length(1000), Vector { x: 0, y: -1000 });
}
