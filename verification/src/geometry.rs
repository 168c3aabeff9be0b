//! Points, sizes and rectangles, in fractional and in whole device pixels.

use vstd::prelude::*;

use crate::scalar::Scalar;

verus! {

/// A point of a fractional space.
#[derive(Clone, Copy, Debug, PartialEq, Eq, Structural)]
pub struct Point {
    pub x: Scalar,
    pub y: Scalar,
}

/// A rectangle of a fractional space, by its upper left and lower right corner.
#[derive(Clone, Copy, Debug, PartialEq, Eq, Structural)]
pub struct Rect {
    pub min: Point,
    pub max: Point,
}

/// A rectangle in the space of a picture.
pub type PictureRect = Rect;

/// A rectangle in the space that a surface is rasterized in.
pub type RasterRect = Rect;

/// A rectangle in device space.
pub type DeviceRect = Rect;

/// A point in device space.
pub type DevicePoint = Point;

impl Rect {
    /// Whether the rectangle covers nothing. A rectangle with a NaN covers
    /// nothing.
    pub open spec fn empty(self) -> bool {
        !(self.min.x.less(self.max.x) && self.min.y.less(self.max.y))
    }

    /// Whether the two rectangles overlap on both axes.
    pub open spec fn overlaps(self, other: Self) -> bool {
        &&& self.min.x.less(other.max.x)
        &&& other.min.x.less(self.max.x)
        &&& self.min.y.less(other.max.y)
        &&& other.min.y.less(self.max.y)
    }

    /// Whether `other` lies within this rectangle, as an empty one always does.
    pub open spec fn covers(self, other: Self) -> bool {
        ||| other.empty()
        ||| {
            &&& self.min.x.at_most(other.min.x)
            &&& other.max.x.at_most(self.max.x)
            &&& self.min.y.at_most(other.min.y)
            &&& other.max.y.at_most(self.max.y)
        }
    }

    /// The rectangle between the inner edges of the two.
    pub open spec fn inner(self, other: Self) -> Self {
        Rect {
            min: Point {
                x: self.min.x.greater(other.min.x),
                y: self.min.y.greater(other.min.y),
            },
            max: Point { x: self.max.x.lesser(other.max.x), y: self.max.y.lesser(other.max.y) },
        }
    }

    /// What the two rectangles have in common, if that covers anything.
    pub open spec fn common(self, other: Self) -> Option<Self> {
        if self.inner(other).empty() {
            None
        } else {
            Some(self.inner(other))
        }
    }

    /// The rectangle with both corners at the origin.
    pub open spec fn zero_value() -> Self {
        Rect {
            min: Point { x: Scalar::zero_value(), y: Scalar::zero_value() },
            max: Point { x: Scalar::zero_value(), y: Scalar::zero_value() },
        }
    }

    /// The rectangle that stands for the whole plane. Which one it is is a choice of
    /// this library: its corners are half the least and half the greatest finite
    /// number.
    pub open spec fn whole_plane() -> Self {
        Rect {
            min: Point { x: Scalar { bits: 0xfeff_ffff }, y: Scalar { bits: 0xfeff_ffff } },
            max: Point { x: Scalar { bits: 0x7eff_ffff }, y: Scalar { bits: 0x7eff_ffff } },
        }
    }

    /// The rectangle with both corners at the origin.
    pub fn zero() -> (r: Self)
        ensures
            r == Self::zero_value(),
    {
        let o = Point { x: Scalar::zero(), y: Scalar::zero() };
        Rect { min: o, max: o }
    }

    /// The rectangle that stands for the whole plane.
    pub fn max_rect() -> (r: Self)
        ensures
            r == Self::whole_plane(),
    {
        let low = Scalar::from_bits(0xfeff_ffff);
        let high = Scalar::from_bits(0x7eff_ffff);
        Rect { min: Point { x: low, y: low }, max: Point { x: high, y: high } }
    }

    /// Whether the rectangle covers nothing.
    pub fn is_empty(&self) -> (r: bool)
        ensures
            r == self.empty(),
    {
        !(self.min.x.lt(self.max.x) && self.min.y.lt(self.max.y))
    }

    /// Whether the two rectangles overlap.
    pub fn intersects(&self, other: &Self) -> (r: bool)
        ensures
            r == self.overlaps(*other),
    {
        self.min.x.lt(other.max.x) && other.min.x.lt(self.max.x) && self.min.y.lt(other.max.y)
            && other.min.y.lt(self.max.y)
    }

    /// Whether `other` lies within this rectangle.
    pub fn contains_box(&self, other: &Self) -> (r: bool)
        ensures
            r == self.covers(*other),
    {
        other.is_empty() || (self.min.x.le(other.min.x) && other.max.x.le(self.max.x)
            && self.min.y.le(other.min.y) && other.max.y.le(self.max.y))
    }

    /// What the two rectangles have in common, if that covers anything.
    pub fn intersection(&self, other: &Self) -> (r: Option<Self>)
        ensures
            r == self.common(*other),
    {
        let b = Rect {
            min: Point { x: self.min.x.max(other.min.x), y: self.min.y.max(other.min.y) },
            max: Point { x: self.max.x.min(other.max.x), y: self.max.y.min(other.max.y) },
        };
        if b.is_empty() {
            None
        } else {
            Some(b)
        }
    }
}

/// A point in whole device pixels.
#[derive(Clone, Copy, Debug, PartialEq, Eq, Structural)]
pub struct DeviceIntPoint {
    pub x: i32,
    pub y: i32,
}

/// An offset in whole device pixels.
pub type DeviceIntVector = DeviceIntPoint;

/// A size in whole device pixels.
#[derive(Clone, Copy, Debug, PartialEq, Eq, Structural)]
pub struct DeviceIntSize {
    pub width: i32,
    pub height: i32,
}

/// A rectangle in whole device pixels.
#[derive(Clone, Copy, Debug, PartialEq, Eq, Structural)]
pub struct DeviceIntRect {
    pub min: DeviceIntPoint,
    pub max: DeviceIntPoint,
}

impl DeviceIntRect {
    /// Whether the rectangle covers no pixel.
    pub open spec fn empty(self) -> bool {
        !(self.max.x > self.min.x && self.max.y > self.min.y)
    }

    /// Whether the rectangle's size can be written as one.
    pub open spec fn sizable(self) -> bool {
        &&& i32::MIN <= self.max.x - self.min.x <= i32::MAX
        &&& i32::MIN <= self.max.y - self.min.y <= i32::MAX
    }

    /// The rectangle's extent on both axes.
    pub open spec fn extent(self) -> DeviceIntSize {
        DeviceIntSize {
            width: (self.max.x - self.min.x) as i32,
            height: (self.max.y - self.min.y) as i32,
        }
    }

    /// Whether the rectangle covers no pixel.
    pub fn is_empty(&self) -> (r: bool)
        ensures
            r == self.empty(),
    {
        !(self.max.x > self.min.x && self.max.y > self.min.y)
    }

    /// The rectangle's extent on both axes.
    pub fn size(&self) -> (r: DeviceIntSize)
        requires
            self.sizable(),
        ensures
            r == self.extent(),
            r.width == self.max.x - self.min.x,
            r.height == self.max.y - self.min.y,
    {
        DeviceIntSize { width: self.max.x - self.min.x, height: self.max.y - self.min.y }
    }
}

} // verus!
