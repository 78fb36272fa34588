use simple_rpt::aabb::{Aabb, Axis, Point3};
use simple_rpt::interval::Interval;
use simple_rpt::order::{bits_of_key, key_of_bits};
use simple_rpt::quad::{is_interior, ONE_KEY, ZERO_KEY};
use simple_rpt::sampling::strata_per_side;
use simple_rpt::sphere::nearest_root;
use simple_rpt::texture::checker_is_even;

fn k(x: f32) -> i32 {
    key_of_bits(x.to_bits())
}

fn p(x: f32, y: f32, z: f32) -> Point3 {
    Point3::new(k(x), k(y), k(z))
}

#[test]
fn keys_order_like_floats() {
    let xs: [f32; 9] = [f32::NEG_INFINITY, -1e30, -2.5, -1.0, -1e-30, 0.0, 1e-30, 3.75, f32::INFINITY];
    for a in 0..xs.len() {
        for b in 0..xs.len() {
            assert_eq!(k(xs[a]) < k(xs[b]), xs[a] < xs[b]);
            assert_eq!(k(xs[a]) == k(xs[b]), xs[a] == xs[b]);
        }
    }
}

#[test]
fn keys_of_known_values() {
    assert_eq!(k(0.0), 0);
    assert_eq!(k(-0.0), 0);
    assert_eq!(k(1.0), 0x3f80_0000);
    assert_eq!(k(-1.0), -0x3f80_0000);
    assert_eq!(k(f32::INFINITY), 0x7f80_0000);
    assert_eq!(k(f32::NEG_INFINITY), -0x7f80_0000);
    assert_eq!(ZERO_KEY, k(0.0));
    assert_eq!(ONE_KEY, k(1.0));
}

#[test]
fn keys_round_trip() {
    for x in [-7.25f32, -1e-20, 0.0, 0.5, 1.0, 123456.0, f32::MAX, f32::MIN] {
        assert_eq!(f32::from_bits(bits_of_key(k(x))), x);
    }
    assert_eq!(bits_of_key(k(-0.0)), 0.0f32.to_bits());
    assert_eq!(bits_of_key(-0x3f80_0000), (-1.0f32).to_bits());
}

#[test]
fn interval_contains_both_ends() {
    let iv = Interval::new(k(-1.0), k(2.0));
    assert!(iv.contains(k(-1.0)));
    assert!(iv.contains(k(2.0)));
    assert!(iv.contains(k(0.5)));
    assert!(!iv.contains(k(2.0001)));
    assert!(!iv.contains(k(-1.5)));
}

#[test]
fn quad_interior_boundary() {
    assert!(is_interior(k(0.0), k(0.0)));
    assert!(is_interior(k(1.0), k(1.0)));
    assert!(is_interior(k(0.5), k(0.5)));
    assert!(!is_interior(k(1.01), k(0.5)));
    assert!(!is_interior(k(-0.01), k(0.5)));
    assert!(!is_interior(k(0.5), k(1.01)));
    assert!(is_interior(k(-0.0), k(1.0)));
}

fn corners(b: &Aabb) -> Vec<Point3> {
    let mut v = Vec::new();
    for hx in [false, true] {
        for hy in [false, true] {
            for hz in [false, true] {
                v.push(Point3::new(
                    if hx { b.max.x } else { b.min.x },
                    if hy { b.max.y } else { b.min.y },
                    if hz { b.max.z } else { b.min.z },
                ));
            }
        }
    }
    v
}

fn inside(b: &Aabb, q: &Point3) -> bool {
    b.min.x <= q.x && q.x <= b.max.x && b.min.y <= q.y && q.y <= b.max.y && b.min.z <= q.z && q.z <= b.max.z
}

#[test]
fn surrounding_box_contains_all_corners() {
    let a = Aabb::new(p(-1.0, 0.0, 2.0), p(1.0, 3.0, 4.0));
    let b = Aabb::new(p(0.5, -2.0, -6.0), p(7.0, 1.0, 3.0));
    let s = Aabb::surrounding_box(&a, &b);
    assert_eq!(s, Aabb::new(p(-1.0, -2.0, -6.0), p(7.0, 3.0, 4.0)));
    for c in corners(&a).iter().chain(corners(&b).iter()) {
        assert!(inside(&s, c));
    }
}

#[test]
fn surrounding_box_of_nested_boxes_is_outer() {
    let outer = Aabb::new(p(-5.0, -5.0, -5.0), p(5.0, 5.0, 5.0));
    let inner = Aabb::new(p(-1.0, 0.0, 1.0), p(1.0, 2.0, 3.0));
    assert_eq!(Aabb::surrounding_box(&inner, &outer), outer);
    assert_eq!(Aabb::surrounding_box(&outer, &inner), outer);
}

#[test]
fn axis_interval_picks_the_axis() {
    let b = Aabb::new(p(1.0, 2.0, 3.0), p(4.0, 5.0, 6.0));
    assert_eq!(b.axis_interval(Axis::X), Interval::new(k(1.0), k(4.0)));
    assert_eq!(b.axis_interval(Axis::Y), Interval::new(k(2.0), k(5.0)));
    assert_eq!(b.axis_interval(Axis::Z), Interval::new(k(3.0), k(6.0)));
    assert_eq!(b.min.at(Axis::Y), k(2.0));
    assert_eq!(b.max.at(Axis::Z), k(6.0));
}

#[test]
fn sphere_root_choice() {
    // unit sphere at the origin, ray from (0,0,5) along -z: roots 4 and 6
    assert_eq!(nearest_root(k(4.0), k(6.0), k(0.0), k(f32::INFINITY)), Some(k(4.0)));
    // origin inside the sphere: the nearer root is behind
    assert_eq!(nearest_root(k(-1.0), k(1.0), k(1e-3), k(f32::INFINITY)), Some(k(1.0)));
    // both roots out of range; the ends are excluded
    assert_eq!(nearest_root(k(4.0), k(6.0), k(0.0), k(4.0)), None);
    assert_eq!(nearest_root(k(4.0), k(6.0), k(4.0), k(6.0)), None);
    assert_eq!(nearest_root(k(4.0), k(6.0), k(4.0), k(7.0)), Some(k(6.0)));
}

#[test]
fn strata_side_is_integer_square_root() {
    assert_eq!(strata_per_side(0), 1);
    assert_eq!(strata_per_side(1), 1);
    assert_eq!(strata_per_side(3), 1);
    assert_eq!(strata_per_side(4), 2);
    assert_eq!(strata_per_side(15), 3);
    assert_eq!(strata_per_side(16), 4);
    assert_eq!(strata_per_side(100), 10);
    assert_eq!(strata_per_side(u32::MAX), 65535);
}

#[test]
fn checker_parity() {
    assert!(checker_is_even(0, 0, 0));
    assert!(!checker_is_even(1, 0, 0));
    assert!(checker_is_even(-1, 1, 2));
    assert!(!checker_is_even(-1, -1, -1));
    assert!(checker_is_even(i32::MAX, i32::MAX, 0));
    assert!(!checker_is_even(i32::MIN, i32::MAX, 0));
}
