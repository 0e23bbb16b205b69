use nadi_gis::ieee::{is_greater, is_less, is_nan_bits};
use nadi_gis::types::{points_from_coords, Point2D, PointError};
use std::collections::hash_map::DefaultHasher;
use std::hash::{Hash, Hasher};

fn bits(x: f64) -> u64 {
    x.to_bits()
}

fn hash_of(p: &Point2D) -> u64 {
    let mut h = DefaultHasher::new();
    p.hash(&mut h);
    h.finish()
}

fn samples() -> Vec<f64> {
    vec![
        0.0,
        -0.0,
        1.0,
        -1.0,
        0.5,
        -0.5,
        1.0000000000000002,
        123456.789,
        -123456.789,
        f64::MIN_POSITIVE,
        -f64::MIN_POSITIVE,
        5e-324,
        -5e-324,
        f64::MAX,
        f64::MIN,
        f64::INFINITY,
        f64::NEG_INFINITY,
        f64::NAN,
        -f64::NAN,
    ]
}

#[test]
fn equal_doubles_give_equal_nodes() {
    let a = Point2D::new2((bits(1.5), bits(-2.25))).unwrap();
    let b = Point2D::new2((bits(1.5), bits(-2.25))).unwrap();
    assert_eq!(a, b);
    assert_eq!(a.key(), b.key());
    assert_eq!(hash_of(&a), hash_of(&b));
    assert!(a.same(&b));
}

#[test]
fn different_doubles_give_different_nodes() {
    let a = Point2D::new2((bits(1.5), bits(-2.25))).unwrap();
    let b = Point2D::new2((bits(1.5), bits(-2.5))).unwrap();
    let c = Point2D::new2((bits(-2.25), bits(1.5))).unwrap();
    assert_ne!(a, b);
    assert_ne!(a, c);
    assert_ne!(a.key(), b.key());
    assert_ne!(a.key(), c.key());
    assert!(!a.same(&b));
}

#[test]
fn the_two_zeros_are_two_nodes() {
    let a = Point2D::new2((bits(0.0), bits(0.0))).unwrap();
    let b = Point2D::new2((bits(-0.0), bits(0.0))).unwrap();
    assert_ne!(a, b);
}

#[test]
fn nan_is_refused() {
    assert_eq!(Point2D::new2((bits(f64::NAN), bits(0.0))), Err(PointError::NanCoordinate));
    assert_eq!(Point2D::new2((bits(0.0), bits(f64::NAN))), Err(PointError::NanCoordinate));
    assert_eq!(Point2D::new2((bits(-f64::NAN), bits(f64::NAN))), Err(PointError::NanCoordinate));
    assert_eq!(
        Point2D::new3((bits(f64::NAN), bits(0.0), bits(0.0))),
        Err(PointError::NanCoordinate)
    );
    assert_eq!(PointError::NanCoordinate.message(), "GIS Coordinate shouldn't be NaN");
}

#[test]
fn infinities_are_accepted() {
    let p = Point2D::new2((bits(f64::INFINITY), bits(f64::NEG_INFINITY))).unwrap();
    assert_eq!(p.coord2(), (bits(f64::INFINITY), bits(f64::NEG_INFINITY)));
}

#[test]
fn the_third_ordinate_is_dropped() {
    let p = Point2D::new3((bits(4.0), bits(5.0), bits(6.0))).unwrap();
    let q = Point2D::new3((bits(4.0), bits(5.0), bits(f64::NAN))).unwrap();
    assert_eq!(p, q);
    assert_eq!(p.coord2(), (bits(4.0), bits(5.0)));
    assert_eq!(p.coord3(), (bits(4.0), bits(5.0), bits(0.0)));
    assert_eq!(f64::from_bits(p.coord3().2), 0.0);
}

#[test]
fn key_is_x_times_two_to_the_64_plus_y() {
    let p = Point2D::new2((3, 7)).unwrap();
    assert_eq!(p.key(), (3u128 << 64) + 7);
    let q = Point2D::new2((u64::MAX - (1 << 52), 0)).unwrap();
    assert_eq!(q.key(), ((u64::MAX - (1 << 52)) as u128) << 64);
}

#[test]
fn nan_test_agrees_with_the_doubles() {
    for x in samples() {
        assert_eq!(is_nan_bits(bits(x)), x.is_nan());
    }
    assert!(is_nan_bits(0x7ff0_0000_0000_0001));
    assert!(is_nan_bits(0xfff8_0000_0000_0000));
    assert!(!is_nan_bits(0x7ff0_0000_0000_0000));
    assert!(!is_nan_bits(0xfff0_0000_0000_0000));
}

#[test]
fn order_on_bits_agrees_with_the_doubles() {
    for x in samples() {
        for y in samples() {
            assert_eq!(is_less(bits(x), bits(y)), x < y);
            assert_eq!(is_greater(bits(x), bits(y)), x > y);
        }
    }
}

#[test]
fn ingestion_takes_every_vertex() {
    let coords = vec![
        (bits(1.0), bits(2.0), bits(3.0)),
        (bits(4.0), bits(5.0), bits(f64::NAN)),
    ];
    let points = points_from_coords(&coords).unwrap();
    assert_eq!(points.len(), 2);
    assert_eq!(points[0].coord2(), (bits(1.0), bits(2.0)));
    assert_eq!(points[1].coord2(), (bits(4.0), bits(5.0)));
    assert_eq!(points_from_coords(&Vec::new()).unwrap().len(), 0);
}

#[test]
fn ingestion_refuses_one_nan() {
    let coords = vec![
        (bits(1.0), bits(2.0), bits(3.0)),
        (bits(4.0), bits(f64::NAN), bits(0.0)),
        (bits(7.0), bits(8.0), bits(9.0)),
    ];
    assert_eq!(points_from_coords(&coords), Err(PointError::NanCoordinate));
}
