use raytracer::interval::Interval;
use raytracer::scalar::Scalar;

fn s(x: f64) -> Scalar {
    Scalar::from_bits(x.to_bits())
}

fn f(x: Scalar) -> f64 {
    f64::from_bits(x.to_bits())
}

fn iv(a: f64, b: f64) -> Interval {
    Interval::new(s(a), s(b))
}

#[test]
fn comparisons_follow_ieee() {
    let values = [
        f64::NEG_INFINITY,
        -3.5,
        -1.0,
        -0.0,
        0.0,
        1e-300,
        0.25,
        2.0,
        f64::MAX,
        f64::INFINITY,
        f64::NAN,
        -f64::NAN,
    ];
    for &a in values.iter() {
        for &b in values.iter() {
            assert_eq!(s(a).lt(s(b)), a < b, "{} < {}", a, b);
            assert_eq!(s(a).le(s(b)), a <= b, "{} <= {}", a, b);
            assert_eq!(s(a).gt(s(b)), a > b, "{} > {}", a, b);
        }
        assert_eq!(s(a).is_nan(), a.is_nan());
    }
}

#[test]
fn min_and_max_ignore_nan() {
    assert_eq!(f(s(1.0).min(s(2.0))), 1.0);
    assert_eq!(f(s(-1.0).max(s(2.0))), 2.0);
    assert_eq!(f(s(f64::NAN).min(s(2.0))), 2.0);
    assert_eq!(f(s(3.0).min(s(f64::NAN))), 3.0);
    assert_eq!(f(s(f64::NAN).max(s(-2.0))), -2.0);
    assert!(f(s(f64::NAN).max(s(f64::NAN))).is_nan());
    assert_eq!(f(s(f64::INFINITY).min(s(-7.0))), -7.0);
}

#[test]
fn constants_are_the_usual_numbers() {
    assert_eq!(f(Scalar::zero()), 0.0);
    assert_eq!(f(Scalar::one()), 1.0);
    assert_eq!(f(Scalar::infinity()), f64::INFINITY);
    assert_eq!(f(Scalar::neg_infinity()), f64::NEG_INFINITY);
}

#[test]
fn new_interval_is_the_hull() {
    let h = Interval::new_interval(&iv(1.0, 3.0), &iv(-2.0, 2.0));
    assert_eq!((f(h.min), f(h.max)), (-2.0, 3.0));
    let h = Interval::new_interval(&iv(f64::NAN, 3.0), &iv(-2.0, f64::NAN));
    assert_eq!((f(h.min), f(h.max)), (-2.0, 3.0));
}

#[test]
fn empty_interval_is_unit_of_hull() {
    let a = iv(-1.5, 4.0);
    let h = Interval::new_interval(&Interval::empty(), &a);
    assert_eq!((f(h.min), f(h.max)), (-1.5, 4.0));
    let d = Interval::default();
    assert_eq!((f(d.min), f(d.max)), (f64::INFINITY, f64::NEG_INFINITY));
}

#[test]
fn surrounds_is_strict() {
    let i = iv(0.0, 1.0);
    assert!(i.surrounds(s(0.5)));
    assert!(!i.surrounds(s(0.0)));
    assert!(!i.surrounds(s(1.0)));
    assert!(!i.surrounds(s(f64::NAN)));
    assert!(!Interval::empty().surrounds(s(0.0)));
    assert!(Interval::universe().surrounds(s(1e308)));
    assert!(!Interval::universe().surrounds(s(f64::INFINITY)));
}

#[test]
fn clamp_moves_into_range() {
    let i = iv(0.0, 0.999);
    assert_eq!(f(i.clamp(s(-1.0))), 0.0);
    assert_eq!(f(i.clamp(s(2.0))), 0.999);
    assert_eq!(f(i.clamp(s(0.5))), 0.5);
    assert_eq!(f(i.clamp(i.clamp(s(7.0)))), 0.999);
    assert!(f(i.clamp(s(f64::NAN))).is_nan());
}

#[test]
fn merge_widens_only_outwards() {
    let mut a = iv(0.0, 1.0);
    a.merge(&iv(-1.0, 0.5));
    assert_eq!((f(a.min), f(a.max)), (-1.0, 1.0));
    a.merge(&iv(f64::NAN, 5.0));
    assert_eq!((f(a.min), f(a.max)), (-1.0, 5.0));
    let mut b = iv(2.0, 3.0);
    let other = iv(1.0, 4.0);
    b.merge(&other);
    let h = Interval::new_interval(&iv(2.0, 3.0), &other);
    assert_eq!((f(b.min), f(b.max)), (f(h.min), f(h.max)));
}
