use vstd::prelude::*;

verus! {

/// Position, size and stacking order of one node, in whole pixels.
#[derive(Clone, Copy, Debug, PartialEq, Eq, Structural)]
pub struct LayoutBox {
    pub x: i64,
    pub y: i64,
    pub width: i64,
    pub height: i64,
    pub order: u32,
}

/// Clamps a mathematical integer into the range of `i64`.
pub open spec fn clamp_i64(v: int) -> i64 {
    if v > i64::MAX {
        i64::MAX
    } else if v < i64::MIN {
        i64::MIN
    } else {
        v as i64
    }
}

/// Sum of two coordinates, saturating at the bounds of `i64`.
pub fn add_coord(a: i64, b: i64) -> (r: i64)
    ensures
        r == clamp_i64(a + b),
{
    match a.checked_add(b) {
        Some(s) => s,
        None => if a > 0 {
            i64::MAX
        } else {
            i64::MIN
        },
    }
}

impl LayoutBox {
    /// The box at the origin with no size, held by every node before its
    /// first measurement.
    pub open spec fn spec_zero() -> LayoutBox {
        LayoutBox { x: 0, y: 0, width: 0, height: 0, order: 0 }
    }

    pub fn zero() -> (r: LayoutBox)
        ensures
            r == LayoutBox::spec_zero(),
    {
        LayoutBox { x: 0, y: 0, width: 0, height: 0, order: 0 }
    }

    /// This box moved by the position of `origin`; size and order unchanged.
    pub open spec fn spec_offset(self, origin: LayoutBox) -> LayoutBox {
        LayoutBox {
            x: clamp_i64(origin.x + self.x),
            y: clamp_i64(origin.y + self.y),
            ..self
        }
    }

    pub fn offset_by(&self, origin: &LayoutBox) -> (r: LayoutBox)
        ensures
            r == self.spec_offset(*origin),
    {
        LayoutBox {
            x: add_coord(origin.x, self.x),
            y: add_coord(origin.y, self.y),
            width: self.width,
            height: self.height,
            order: self.order,
        }
    }

    /// Whether position, size or order differ between the two boxes.
    pub fn differs(&self, other: &LayoutBox) -> (r: bool)
        ensures
            r == (*self != *other),
    {
        self.x != other.x || self.y != other.y || self.width != other.width
            || self.height != other.height || self.order != other.order
    }
}

} // verus!
