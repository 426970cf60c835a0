use rpgtools::point::Point;
use rpgtools::point2d::Point2D;
use rpgtools::RpgError;

// A new point should be at the origin and adding a point to the origin
// should be equal to a new point at the origin
#[test]
fn test_add_origin() {
    assert_eq!(Point::new(0, 0) + Point::new(0, 0), Point::new(0, 0));
}

// A point that has zero added to it should be the same
#[test]
fn test_add_zero() {
    assert_eq!(Point::new(3, 5) + Point::new(0, 0), Point::new(3, 5));
}

// Points should add in the normal vector way
#[test]
fn test_add_two_points() {
    assert_eq!(Point::new(3, 5) + Point::new(7, 9), Point::new(10, 14));
    assert_eq!(Point::new(3, 5) + Point::new(-2, -14), Point::new(1, -9));
}

// Points should subtract in the normal vector way
#[test]
fn test_subtract_two_points() {
    assert_eq!(Point::new(3, 5) - Point::new(7, 9), Point::new(-4, -4));
    assert_eq!(Point::new(3, 5) - Point::new(-2, -14), Point::new(5, 19));
}

#[test]
fn negate_point() {
    assert_eq!(-Point::new(3, -5), Point::new(-3, 5));
}

#[test]
fn squared_distance() {
    assert_eq!(2, Point::new(3, 5).distance2(&Point::new(4, 4)));
    assert_eq!(25, Point::new(0, 0).distance2(&Point::new(-3, 4)));
    assert_eq!(0, Point::new(7, 7).distance2(&Point::new(7, 7)));
}

#[test]
fn bounds_are_inclusive() {
    let lower = Point::new(0, 0);
    let upper = Point::new(4, 4);
    assert!(Point::new(0, 0).is_in_bounds(lower, upper));
    assert!(Point::new(4, 4).is_in_bounds(lower, upper));
    assert!(!Point::new(5, 4).is_in_bounds(lower, upper));
    assert!(!Point::new(2, -1).is_in_bounds(lower, upper));
}

#[test]
fn default_point_is_origin() {
    assert_eq!(Point::default(), Point::new(0, 0));
}

#[test]
fn round_trip_through_narrow_pairs() {
    let p = Point::new(-120, 100);
    let t: (i8, i8) = p.try_into().unwrap();
    assert_eq!(t, (-120, 100));
    assert_eq!(Point::from(t), p);
    let t: (i16, i16) = p.try_into().unwrap();
    assert_eq!(Point::from(t), p);
    let t: (i32, i32) = p.try_into().unwrap();
    assert_eq!(Point::from(t), p);
    let t: (i64, i64) = p.into();
    assert_eq!(Point::from(t), p);

    let q = Point::new(250, 7);
    let t: (u8, u8) = q.try_into().unwrap();
    assert_eq!(Point::from(t), q);
    let t: (u16, u16) = q.try_into().unwrap();
    assert_eq!(Point::from(t), q);
    let t: (u32, u32) = q.try_into().unwrap();
    assert_eq!(Point::from(t), q);
    let t: (usize, usize) = q.try_into().unwrap();
    assert_eq!(Point::try_from(t).unwrap(), q);
}

#[test]
fn narrowing_out_of_range_fails() {
    let r: Result<(i8, i8), RpgError> = Point::new(300, 5).try_into();
    assert!(matches!(r, Err(RpgError::PointConversion(_))));
    let r: Result<(u8, u8), RpgError> = Point::new(5, 256).try_into();
    assert!(r.is_err());
    let r: Result<(u32, u32), RpgError> = Point::new(-1, 0).try_into();
    assert!(r.is_err());
    let r: Result<(usize, usize), RpgError> = Point::new(0, -7).try_into();
    assert!(r.is_err());
    let r: Result<(i16, i16), RpgError> = Point::new(40000, 0).try_into();
    assert!(r.is_err());
    let r: Result<(i32, i32), RpgError> = Point::new(0, 1 << 40).try_into();
    assert!(r.is_err());
    let r: Result<(u16, u16), RpgError> = Point::new(70000, 0).try_into();
    assert!(r.is_err());
}

#[test]
fn wide_unsigned_pairs_convert_when_they_fit() {
    assert_eq!(Point::try_from((5u64, 6u64)).unwrap(), Point::new(5, 6));
    assert!(Point::try_from((u64::MAX, 0u64)).is_err());
    assert!(Point::try_from((0usize, usize::MAX)).is_err());
    assert_eq!(Point::try_from((9usize, 1usize)).unwrap(), Point::new(9, 1));
}

#[test]
fn point2d_holds_its_coordinates() {
    let p = Point2D::new(3u8, 4u8);
    assert_eq!(p.x, 3);
    assert_eq!(p.y, 4);
}

#[test]
fn error_messages() {
    assert_eq!(RpgError::OutOfBounds.message(), "out of map bounds");
    assert_eq!(RpgError::Empty("x".to_string()).message(), "unexpectedly empty");
}
