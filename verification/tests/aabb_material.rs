use raytracer::aabb::Aabb;
use raytracer::interval::Interval;
use raytracer::material::{Dielectric, Lambertian, Metal};
use raytracer::ray::Ray;
use raytracer::scalar::Scalar;
use raytracer::util::is_ci;
use raytracer::vec3::Vec3;

fn s(x: f64) -> Scalar {
    Scalar::from_bits(x.to_bits())
}

fn f(x: Scalar) -> f64 {
    f64::from_bits(x.to_bits())
}

fn v(x: f64, y: f64, z: f64) -> Vec3 {
    Vec3::new(s(x), s(y), s(z))
}

fn bounds(i: &Interval) -> (f64, f64) {
    (f(i.min), f(i.max))
}

#[test]
fn from_corners_orders_each_axis() {
    let b = Aabb::from_corners(&v(1.0, -2.0, 3.0), &v(-1.0, 5.0, 3.0));
    assert_eq!(bounds(&b.x), (-1.0, 1.0));
    assert_eq!(bounds(&b.y), (-2.0, 5.0));
    assert_eq!(bounds(&b.z), (3.0, 3.0));
}

#[test]
fn axis_selects_interval() {
    let b = Aabb::new(
        &Interval::new(s(0.0), s(1.0)),
        &Interval::new(s(2.0), s(3.0)),
        &Interval::new(s(4.0), s(5.0)),
    );
    assert_eq!(bounds(b.axis(0)), (0.0, 1.0));
    assert_eq!(bounds(b.axis(1)), (2.0, 3.0));
    assert_eq!(bounds(b.axis(2)), (4.0, 5.0));
    assert_eq!(bounds(b.axis(7)), (4.0, 5.0));
}

#[test]
fn new_box_is_the_hull() {
    let a = Aabb::from_corners(&v(0.0, 0.0, 0.0), &v(1.0, 1.0, 1.0));
    let b = Aabb::from_corners(&v(-1.0, 0.5, 2.0), &v(0.5, 0.7, 3.0));
    let h = Aabb::new_box(&a, &b);
    assert_eq!(bounds(&h.x), (-1.0, 1.0));
    assert_eq!(bounds(&h.y), (0.0, 1.0));
    assert_eq!(bounds(&h.z), (0.0, 3.0));
    let e = Aabb::new_box(&Aabb::default(), &a);
    assert_eq!(bounds(&e.x), (0.0, 1.0));
    assert_eq!(bounds(&e.z), (0.0, 1.0));
    let u = Aabb::universe();
    assert_eq!(bounds(&u.y), (f64::NEG_INFINITY, f64::INFINITY));
    let m = Aabb::empty();
    assert_eq!(bounds(&m.y), (f64::INFINITY, f64::NEG_INFINITY));
}

#[test]
fn longest_axis_picks_largest_size() {
    assert_eq!(Aabb::longest_axis(s(3.0), s(1.0), s(2.0)), 0);
    assert_eq!(Aabb::longest_axis(s(1.0), s(3.0), s(2.0)), 1);
    assert_eq!(Aabb::longest_axis(s(1.0), s(2.0), s(3.0)), 2);
    assert_eq!(Aabb::longest_axis(s(2.0), s(2.0), s(2.0)), 2);
    assert_eq!(Aabb::longest_axis(s(2.0), s(2.0), s(1.0)), 1);
}

#[test]
fn clip_to_slab_narrows_range() {
    let mut t = Interval::new(s(0.0), s(10.0));
    assert!(Aabb::clip_to_slab(&mut t, s(2.0), s(5.0), s(1.0)));
    assert_eq!(bounds(&t), (2.0, 5.0));
    let mut t = Interval::new(s(0.0), s(10.0));
    assert!(Aabb::clip_to_slab(&mut t, s(5.0), s(2.0), s(-1.0)));
    assert_eq!(bounds(&t), (2.0, 5.0));
    let mut t = Interval::new(s(0.0), s(1.0));
    assert!(!Aabb::clip_to_slab(&mut t, s(2.0), s(5.0), s(1.0)));
    assert_eq!(bounds(&t), (2.0, 1.0));
    let mut t = Interval::new(s(0.0), s(10.0));
    assert!(Aabb::clip_to_slab(&mut t, s(f64::NAN), s(f64::NAN), s(1.0)));
    assert_eq!(bounds(&t), (0.0, 10.0));
}

#[test]
fn hit_planes_stops_at_first_empty_slab() {
    let mut t = Interval::new(s(0.0), s(10.0));
    let hit = Aabb::hit_planes(
        &mut t,
        &[s(1.0), s(2.0), s(3.0)],
        &[s(8.0), s(7.0), s(6.0)],
        &[s(1.0), s(1.0), s(1.0)],
    );
    assert!(hit);
    assert_eq!(bounds(&t), (3.0, 6.0));
    let mut t = Interval::new(s(0.0), s(10.0));
    let hit = Aabb::hit_planes(
        &mut t,
        &[s(1.0), s(6.0), s(0.5)],
        &[s(5.0), s(9.0), s(9.5)],
        &[s(1.0), s(1.0), s(1.0)],
    );
    assert!(!hit);
    assert_eq!(bounds(&t), (6.0, 5.0));
    let mut t = Interval::new(s(0.0), s(10.0));
    let hit = Aabb::hit_planes(
        &mut t,
        &[s(4.0), s(0.0), s(0.0)],
        &[s(2.0), s(10.0), s(10.0)],
        &[s(-1.0), s(1.0), s(1.0)],
    );
    assert!(hit);
    assert_eq!(bounds(&t), (2.0, 4.0));
}

#[test]
fn metal_fuzz_is_at_most_one() {
    let m = Metal::new(v(0.1, 0.2, 0.3), s(0.5));
    assert_eq!(f(m.fuzz), 0.5);
    assert_eq!(f(m.albedo.y), 0.2);
    assert_eq!(f(Metal::new(v(0.0, 0.0, 0.0), s(3.0)).fuzz), 1.0);
    assert_eq!(f(Metal::new(v(0.0, 0.0, 0.0), s(1.0)).fuzz), 1.0);
    assert_eq!(f(Metal::new(v(0.0, 0.0, 0.0), s(f64::NAN)).fuzz), 1.0);
}

#[test]
fn lambertian_and_dielectric_keep_their_values() {
    let l = Lambertian::new(v(0.4, 0.2, 0.1));
    assert_eq!((f(l.albedo.x), f(l.albedo.y), f(l.albedo.z)), (0.4, 0.2, 0.1));
    assert_eq!(f(Dielectric::new(s(1.5)).ir), 1.5);
}

#[test]
fn rays_record_their_time() {
    let r = Ray::new(v(1.0, 2.0, 3.0), v(0.0, 0.0, -1.0));
    assert_eq!(f(r.tm), 0.0);
    assert_eq!(f(r.orig.y), 2.0);
    let r = Ray::new_time(v(1.0, 2.0, 3.0), v(0.0, 0.0, -1.0), s(0.5));
    assert_eq!(f(r.tm), 0.5);
    assert_eq!(f(r.dir.z), -1.0);
}

#[test]
fn ci_flag_needs_exact_true() {
    assert!(is_ci(Some("true")));
    assert!(!is_ci(Some("TRUE")));
    assert!(!is_ci(Some("1")));
    assert!(!is_ci(Some("")));
    assert!(!is_ci(None));
}
