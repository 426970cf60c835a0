//! A point in a grid
use vstd::prelude::*;
use crate::error::RpgError;
use vstd::std_specs::convert::{FromSpec, TryFromSpec};

verus! {

/// A point in a grid, represented by a pair of integers
///
/// The grid may include cells at negative integers (the origin need not be at
/// the edge of the map). A point is just an index, and therefore `Copy`.
#[derive(Clone, Copy, Debug, PartialEq, Eq, Hash, Structural)]
pub struct Point {
    pub x: i64,
    pub y: i64,
}

/// The square of the euclidean distance between two points.
pub open spec fn sq_dist(a: Point, b: Point) -> int {
    (a.x - b.x) * (a.x - b.x) + (a.y - b.y) * (a.y - b.y)
}

/// Whether `p` lies in the box spanned by `lower` and `upper`, both ends included.
pub open spec fn in_box(p: Point, lower: Point, upper: Point) -> bool {
    lower.x <= p.x <= upper.x && lower.y <= p.y <= upper.y
}

impl Point {
    /// Make a new point
    pub fn new(x: i64, y: i64) -> (r: Point)
        ensures
            r == (Point { x, y }),
    {
        Point { x, y }
    }

    /// Calculate the square of the euclidean distance between two points
    ///
    /// The square is enough to compare distances and saves a square root.
    pub fn distance2(&self, other: &Self) -> (r: u64)
        requires
            sq_dist(*self, *other) <= u64::MAX,
        ensures
            r == sq_dist(*self, *other),
    {
        let dx: i128 = self.x as i128 - other.x as i128;
        let dy: i128 = self.y as i128 - other.y as i128;
        let ax: u128 = if dx < 0 { (-dx) as u128 } else { dx as u128 };
        let ay: u128 = if dy < 0 { (-dy) as u128 } else { dy as u128 };
        proof {
            assert(ax * ax == dx * dx) by (nonlinear_arith)
                requires ax == dx || ax == -dx;
            assert(ay * ay == dy * dy) by (nonlinear_arith)
                requires ay == dy || ay == -dy;
            assert(0 <= ax * ax && 0 <= ay * ay) by (nonlinear_arith);
        }
        let sx: u128 = ax * ax;
        let sy: u128 = ay * ay;
        (sx + sy) as u64
    }

    /// Whether the point lies between `lower` and `upper` on both axes, both ends included.
    pub fn is_in_bounds(&self, lower: Point, upper: Point) -> (r: bool)
        ensures
            r == in_box(*self, lower, upper),
    {
        self.x >= lower.x && self.x <= upper.x && self.y >= lower.y && self.y <= upper.y
    }
}

/// Points can be added together, as vectors.
impl core::ops::Add for Point {
    type Output = Self;

    fn add(self, other: Self) -> (r: Self) {
        Point { x: self.x + other.x, y: self.y + other.y }
    }
}

impl vstd::std_specs::ops::AddSpecImpl for Point {
    open spec fn obeys_add_spec() -> bool {
        true
    }

    open spec fn add_req(self, rhs: Point) -> bool {
        i64::MIN <= self.x + rhs.x <= i64::MAX && i64::MIN <= self.y + rhs.y <= i64::MAX
    }

    open spec fn add_spec(self, rhs: Point) -> Point {
        Point { x: (self.x + rhs.x) as i64, y: (self.y + rhs.y) as i64 }
    }
}

/// Points can be negated, as vectors.
impl core::ops::Neg for Point {
    type Output = Self;

    fn neg(self) -> (r: Self) {
        Point { x: -self.x, y: -self.y }
    }
}

impl vstd::std_specs::ops::NegSpecImpl for Point {
    open spec fn obeys_neg_spec() -> bool {
        true
    }

    open spec fn neg_req(self) -> bool {
        self.x != i64::MIN && self.y != i64::MIN
    }

    open spec fn neg_spec(self) -> Point {
        Point { x: (-self.x) as i64, y: (-self.y) as i64 }
    }
}

/// Points can be subtracted, as vectors.
impl core::ops::Sub for Point {
    type Output = Self;

    fn sub(self, other: Self) -> (r: Self) {
        Point { x: self.x - other.x, y: self.y - other.y }
    }
}

impl vstd::std_specs::ops::SubSpecImpl for Point {
    open spec fn obeys_sub_spec() -> bool {
        true
    }

    open spec fn sub_req(self, rhs: Point) -> bool {
        i64::MIN <= self.x - rhs.x <= i64::MAX && i64::MIN <= self.y - rhs.y <= i64::MAX
    }

    open spec fn sub_spec(self, rhs: Point) -> Point {
        Point { x: (self.x - rhs.x) as i64, y: (self.y - rhs.y) as i64 }
    }
}

impl Default for Point {
    /// The default for a Point is at the origin (0, 0).
    fn default() -> (r: Self)
        ensures
            r == (Point { x: 0, y: 0 }),
    {
        Point::new(0, 0)
    }
}

impl From<(i64, i64)> for Point {
    fn from(value: (i64, i64)) -> (r: Self) {
        Point { x: value.0, y: value.1 }
    }
}

impl vstd::std_specs::convert::FromSpecImpl<(i64, i64)> for Point {
    open spec fn obeys_from_spec() -> bool {
        true
    }

    open spec fn from_spec(v: (i64, i64)) -> Point {
        Point { x: v.0, y: v.1 }
    }
}

impl From<Point> for (i64, i64) {
    fn from(value: Point) -> (r: Self) {
        (value.x, value.y)
    }
}

impl vstd::std_specs::convert::FromSpecImpl<Point> for (i64, i64) {
    open spec fn obeys_from_spec() -> bool {
        true
    }

    open spec fn from_spec(v: Point) -> (i64, i64) {
        (v.x, v.y)
    }
}

impl From<(i32, i32)> for Point {
    fn from(value: (i32, i32)) -> (r: Self) {
        Point { x: value.0 as i64, y: value.1 as i64 }
    }
}

impl vstd::std_specs::convert::FromSpecImpl<(i32, i32)> for Point {
    open spec fn obeys_from_spec() -> bool {
        true
    }

    open spec fn from_spec(v: (i32, i32)) -> Point {
        Point { x: v.0 as i64, y: v.1 as i64 }
    }
}

impl TryFrom<Point> for (i32, i32) {
    type Error = RpgError;

    fn try_from(value: Point) -> (r: Result<Self, Self::Error>) {
        match i32::try_from(value.x) {
            Err(e) => Err(RpgError::PointConversion(e)),
            Ok(x) => match i32::try_from(value.y) {
                Err(e) => Err(RpgError::PointConversion(e)),
                Ok(y) => Ok((x, y)),
            },
        }
    }
}

impl vstd::std_specs::convert::TryFromSpecImpl<Point> for (i32, i32) {
    open spec fn obeys_try_from_spec() -> bool {
        true
    }

    open spec fn try_from_spec(v: Point) -> Result<(i32, i32), RpgError> {
        if i32::MIN <= v.x <= i32::MAX && i32::MIN <= v.y <= i32::MAX {
            Ok((v.x as i32, v.y as i32))
        } else {
            Err(RpgError::PointConversion(arbitrary()))
        }
    }
}

impl From<(i16, i16)> for Point {
    fn from(value: (i16, i16)) -> (r: Self) {
        Point { x: value.0 as i64, y: value.1 as i64 }
    }
}

impl vstd::std_specs::convert::FromSpecImpl<(i16, i16)> for Point {
    open spec fn obeys_from_spec() -> bool {
        true
    }

    open spec fn from_spec(v: (i16, i16)) -> Point {
        Point { x: v.0 as i64, y: v.1 as i64 }
    }
}

impl From<(i8, i8)> for Point {
    fn from(value: (i8, i8)) -> (r: Self) {
        Point { x: value.0 as i64, y: value.1 as i64 }
    }
}

impl vstd::std_specs::convert::FromSpecImpl<(i8, i8)> for Point {
    open spec fn obeys_from_spec() -> bool {
        true
    }

    open spec fn from_spec(v: (i8, i8)) -> Point {
        Point { x: v.0 as i64, y: v.1 as i64 }
    }
}

impl From<(u32, u32)> for Point {
    fn from(value: (u32, u32)) -> (r: Self) {
        Point { x: value.0 as i64, y: value.1 as i64 }
    }
}

impl vstd::std_specs::convert::FromSpecImpl<(u32, u32)> for Point {
    open spec fn obeys_from_spec() -> bool {
        true
    }

    open spec fn from_spec(v: (u32, u32)) -> Point {
        Point { x: v.0 as i64, y: v.1 as i64 }
    }
}

impl From<(u16, u16)> for Point {
    fn from(value: (u16, u16)) -> (r: Self) {
        Point { x: value.0 as i64, y: value.1 as i64 }
    }
}

impl vstd::std_specs::convert::FromSpecImpl<(u16, u16)> for Point {
    open spec fn obeys_from_spec() -> bool {
        true
    }

    open spec fn from_spec(v: (u16, u16)) -> Point {
        Point { x: v.0 as i64, y: v.1 as i64 }
    }
}

impl From<(u8, u8)> for Point {
    fn from(value: (u8, u8)) -> (r: Self) {
        Point { x: value.0 as i64, y: value.1 as i64 }
    }
}

impl vstd::std_specs::convert::FromSpecImpl<(u8, u8)> for Point {
    open spec fn obeys_from_spec() -> bool {
        true
    }

    open spec fn from_spec(v: (u8, u8)) -> Point {
        Point { x: v.0 as i64, y: v.1 as i64 }
    }
}

impl TryFrom<Point> for (i16, i16) {
    type Error = RpgError;

    fn try_from(value: Point) -> (r: Result<Self, Self::Error>) {
        match i16::try_from(value.x) {
            Err(e) => Err(RpgError::PointConversion(e)),
            Ok(x) => match i16::try_from(value.y) {
                Err(e) => Err(RpgError::PointConversion(e)),
                Ok(y) => Ok((x, y)),
            },
        }
    }
}

impl vstd::std_specs::convert::TryFromSpecImpl<Point> for (i16, i16) {
    open spec fn obeys_try_from_spec() -> bool {
        true
    }

    open spec fn try_from_spec(v: Point) -> Result<(i16, i16), RpgError> {
        if i16::MIN <= v.x <= i16::MAX && i16::MIN <= v.y <= i16::MAX {
            Ok((v.x as i16, v.y as i16))
        } else {
            Err(RpgError::PointConversion(arbitrary()))
        }
    }
}

impl TryFrom<Point> for (i8, i8) {
    type Error = RpgError;

    fn try_from(value: Point) -> (r: Result<Self, Self::Error>) {
        match i8::try_from(value.x) {
            Err(e) => Err(RpgError::PointConversion(e)),
            Ok(x) => match i8::try_from(value.y) {
                Err(e) => Err(RpgError::PointConversion(e)),
                Ok(y) => Ok((x, y)),
            },
        }
    }
}

impl vstd::std_specs::convert::TryFromSpecImpl<Point> for (i8, i8) {
    open spec fn obeys_try_from_spec() -> bool {
        true
    }

    open spec fn try_from_spec(v: Point) -> Result<(i8, i8), RpgError> {
        if i8::MIN <= v.x <= i8::MAX && i8::MIN <= v.y <= i8::MAX {
            Ok((v.x as i8, v.y as i8))
        } else {
            Err(RpgError::PointConversion(arbitrary()))
        }
    }
}

impl TryFrom<Point> for (usize, usize) {
    type Error = RpgError;

    fn try_from(value: Point) -> (r: Result<Self, Self::Error>) {
        match usize::try_from(value.x) {
            Err(e) => Err(RpgError::PointConversion(e)),
            Ok(x) => match usize::try_from(value.y) {
                Err(e) => Err(RpgError::PointConversion(e)),
                Ok(y) => Ok((x, y)),
            },
        }
    }
}

impl vstd::std_specs::convert::TryFromSpecImpl<Point> for (usize, usize) {
    open spec fn obeys_try_from_spec() -> bool {
        true
    }

    open spec fn try_from_spec(v: Point) -> Result<(usize, usize), RpgError> {
        if 0 <= v.x <= usize::MAX && 0 <= v.y <= usize::MAX {
            Ok((v.x as usize, v.y as usize))
        } else {
            Err(RpgError::PointConversion(arbitrary()))
        }
    }
}

impl TryFrom<Point> for (u32, u32) {
    type Error = RpgError;

    fn try_from(value: Point) -> (r: Result<Self, Self::Error>) {
        match u32::try_from(value.x) {
            Err(e) => Err(RpgError::PointConversion(e)),
            Ok(x) => match u32::try_from(value.y) {
                Err(e) => Err(RpgError::PointConversion(e)),
                Ok(y) => Ok((x, y)),
            },
        }
    }
}

impl vstd::std_specs::convert::TryFromSpecImpl<Point> for (u32, u32) {
    open spec fn obeys_try_from_spec() -> bool {
        true
    }

    open spec fn try_from_spec(v: Point) -> Result<(u32, u32), RpgError> {
        if 0 <= v.x <= u32::MAX && 0 <= v.y <= u32::MAX {
            Ok((v.x as u32, v.y as u32))
        } else {
            Err(RpgError::PointConversion(arbitrary()))
        }
    }
}

impl TryFrom<Point> for (u16, u16) {
    type Error = RpgError;

    fn try_from(value: Point) -> (r: Result<Self, Self::Error>) {
        match u16::try_from(value.x) {
            Err(e) => Err(RpgError::PointConversion(e)),
            Ok(x) => match u16::try_from(value.y) {
                Err(e) => Err(RpgError::PointConversion(e)),
                Ok(y) => Ok((x, y)),
            },
        }
    }
}

impl vstd::std_specs::convert::TryFromSpecImpl<Point> for (u16, u16) {
    open spec fn obeys_try_from_spec() -> bool {
        true
    }

    open spec fn try_from_spec(v: Point) -> Result<(u16, u16), RpgError> {
        if 0 <= v.x <= u16::MAX && 0 <= v.y <= u16::MAX {
            Ok((v.x as u16, v.y as u16))
        } else {
            Err(RpgError::PointConversion(arbitrary()))
        }
    }
}

impl TryFrom<Point> for (u8, u8) {
    type Error = RpgError;

    fn try_from(value: Point) -> (r: Result<Self, Self::Error>) {
        match u8::try_from(value.x) {
            Err(e) => Err(RpgError::PointConversion(e)),
            Ok(x) => match u8::try_from(value.y) {
                Err(e) => Err(RpgError::PointConversion(e)),
                Ok(y) => Ok((x, y)),
            },
        }
    }
}

impl vstd::std_specs::convert::TryFromSpecImpl<Point> for (u8, u8) {
    open spec fn obeys_try_from_spec() -> bool {
        true
    }

    open spec fn try_from_spec(v: Point) -> Result<(u8, u8), RpgError> {
        if 0 <= v.x <= u8::MAX && 0 <= v.y <= u8::MAX {
            Ok((v.x as u8, v.y as u8))
        } else {
            Err(RpgError::PointConversion(arbitrary()))
        }
    }
}

impl TryFrom<(u64, u64)> for Point {
    type Error = RpgError;

    fn try_from(value: (u64, u64)) -> (r: Result<Self, Self::Error>) {
        match i64::try_from(value.0 as u128) {
            Err(e) => Err(RpgError::PointConversion(e)),
            Ok(x) => match i64::try_from(value.1 as u128) {
                Err(e) => Err(RpgError::PointConversion(e)),
                Ok(y) => Ok(Point::new(x, y)),
            },
        }
    }
}

impl vstd::std_specs::convert::TryFromSpecImpl<(u64, u64)> for Point {
    open spec fn obeys_try_from_spec() -> bool {
        true
    }

    open spec fn try_from_spec(v: (u64, u64)) -> Result<Point, RpgError> {
        if v.0 <= i64::MAX && v.1 <= i64::MAX {
            Ok(Point { x: v.0 as i64, y: v.1 as i64 })
        } else {
            Err(RpgError::PointConversion(arbitrary()))
        }
    }
}

impl TryFrom<(usize, usize)> for Point {
    type Error = RpgError;

    fn try_from(value: (usize, usize)) -> (r: Result<Self, Self::Error>) {
        match i64::try_from(value.0) {
            Err(e) => Err(RpgError::PointConversion(e)),
            Ok(x) => match i64::try_from(value.1) {
                Err(e) => Err(RpgError::PointConversion(e)),
                Ok(y) => Ok(Point::new(x, y)),
            },
        }
    }
}

impl vstd::std_specs::convert::TryFromSpecImpl<(usize, usize)> for Point {
    open spec fn obeys_try_from_spec() -> bool {
        true
    }

    open spec fn try_from_spec(v: (usize, usize)) -> Result<Point, RpgError> {
        if v.0 <= i64::MAX && v.1 <= i64::MAX {
            Ok(Point { x: v.0 as i64, y: v.1 as i64 })
        } else {
            Err(RpgError::PointConversion(arbitrary()))
        }
    }
}


/// Whether both coordinates of `p` lie in `lo..=hi`.
pub open spec fn fits(p: Point, lo: int, hi: int) -> bool {
    lo <= p.x <= hi && lo <= p.y <= hi
}

/// Converting a point to a pair of a narrower integer type and back gives the
/// same point whenever both coordinates fit in that type; when one does not
/// fit, the conversion fails instead of wrapping.
pub proof fn lemma_narrow_round_trip(p: Point)
    ensures
        fits(p, i32::MIN as int, i32::MAX as int) ==> {
            &&& <(i32, i32) as TryFromSpec<Point>>::try_from_spec(p) is Ok
            &&& <Point as FromSpec<(i32, i32)>>::from_spec(
                <(i32, i32) as TryFromSpec<Point>>::try_from_spec(p)->Ok_0,
            ) == p
        },
        !fits(p, i32::MIN as int, i32::MAX as int) ==> <(i32, i32) as TryFromSpec<Point>>::try_from_spec(
            p,
        ) is Err,
        fits(p, i16::MIN as int, i16::MAX as int) ==> {
            &&& <(i16, i16) as TryFromSpec<Point>>::try_from_spec(p) is Ok
            &&& <Point as FromSpec<(i16, i16)>>::from_spec(
                <(i16, i16) as TryFromSpec<Point>>::try_from_spec(p)->Ok_0,
            ) == p
        },
        !fits(p, i16::MIN as int, i16::MAX as int) ==> <(i16, i16) as TryFromSpec<Point>>::try_from_spec(
            p,
        ) is Err,
        fits(p, i8::MIN as int, i8::MAX as int) ==> {
            &&& <(i8, i8) as TryFromSpec<Point>>::try_from_spec(p) is Ok
            &&& <Point as FromSpec<(i8, i8)>>::from_spec(
                <(i8, i8) as TryFromSpec<Point>>::try_from_spec(p)->Ok_0,
            ) == p
        },
        !fits(p, i8::MIN as int, i8::MAX as int) ==> <(i8, i8) as TryFromSpec<Point>>::try_from_spec(
            p,
        ) is Err,
        fits(p, 0 as int, u32::MAX as int) ==> {
            &&& <(u32, u32) as TryFromSpec<Point>>::try_from_spec(p) is Ok
            &&& <Point as FromSpec<(u32, u32)>>::from_spec(
                <(u32, u32) as TryFromSpec<Point>>::try_from_spec(p)->Ok_0,
            ) == p
        },
        !fits(p, 0 as int, u32::MAX as int) ==> <(u32, u32) as TryFromSpec<Point>>::try_from_spec(
            p,
        ) is Err,
        fits(p, 0 as int, u16::MAX as int) ==> {
            &&& <(u16, u16) as TryFromSpec<Point>>::try_from_spec(p) is Ok
            &&& <Point as FromSpec<(u16, u16)>>::from_spec(
                <(u16, u16) as TryFromSpec<Point>>::try_from_spec(p)->Ok_0,
            ) == p
        },
        !fits(p, 0 as int, u16::MAX as int) ==> <(u16, u16) as TryFromSpec<Point>>::try_from_spec(
            p,
        ) is Err,
        fits(p, 0 as int, u8::MAX as int) ==> {
            &&& <(u8, u8) as TryFromSpec<Point>>::try_from_spec(p) is Ok
            &&& <Point as FromSpec<(u8, u8)>>::from_spec(
                <(u8, u8) as TryFromSpec<Point>>::try_from_spec(p)->Ok_0,
            ) == p
        },
        !fits(p, 0 as int, u8::MAX as int) ==> <(u8, u8) as TryFromSpec<Point>>::try_from_spec(
            p,
        ) is Err,
        fits(p, 0, usize::MAX as int) ==> {
            &&& <(usize, usize) as TryFromSpec<Point>>::try_from_spec(p) is Ok
            &&& <Point as TryFromSpec<(usize, usize)>>::try_from_spec(
                <(usize, usize) as TryFromSpec<Point>>::try_from_spec(p)->Ok_0,
            ) == Ok::<Point, RpgError>(p)
        },
        !fits(p, 0, usize::MAX as int) ==> <(usize, usize) as TryFromSpec<Point>>::try_from_spec(
            p,
        ) is Err,
{
}

} // verus!
