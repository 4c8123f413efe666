//! Rectangles of the screen.

use vstd::prelude::*;

verus! {

/// `value` held between `low` and `high`.
pub open spec fn held(value: int, low: int, high: int) -> int {
    if value < low {
        low
    } else if value > high {
        high
    } else {
        value
    }
}

/// The least position that an area can take on either axis.
pub const MIN_POSITION: i32 = -1073741824;

/// The greatest position that an area can take on either axis.
pub const MAX_POSITION: i32 = 1073741823;

/// A rectangle of the screen: the position of its top left corner and its size.
#[derive(Debug, Clone, Copy, PartialEq, Eq, Structural)]
pub struct Area {
    pub x: i32,
    pub y: i32,
    pub width: u32,
    pub height: u32,
}

impl Area {
    /// The x-position of the left side.
    pub open spec fn left(self) -> int {
        self.x as int
    }

    /// The x-position of the right side.
    pub open spec fn right(self) -> int {
        self.x + self.width
    }

    /// The y-position of the top side.
    pub open spec fn top(self) -> int {
        self.y as int
    }

    /// The y-position of the bottom side.
    pub open spec fn bottom(self) -> int {
        self.y + self.height
    }

    /// The area moved by `dx` to the right and `dy` down, as far as positions
    /// go.
    pub open spec fn shifted(self, dx: int, dy: int) -> Area {
        Area {
            x: held(self.x + dx, MIN_POSITION as int, MAX_POSITION as int) as i32,
            y: held(self.y + dy, MIN_POSITION as int, MAX_POSITION as int) as i32,
            ..self
        }
    }

    /// Moves the area by `dx` to the right and `dy` down. A position past the
    /// least or greatest one stops there.
    pub fn shift(&self, dx: i64, dy: i64) -> (moved: Area)
        ensures
            moved == self.shifted(dx as int, dy as int),
    {
        let x: i128 = self.x as i128 + dx as i128;
        let y: i128 = self.y as i128 + dy as i128;
        let x: i128 = if x < MIN_POSITION as i128 {
            MIN_POSITION as i128
        } else if x > MAX_POSITION as i128 {
            MAX_POSITION as i128
        } else {
            x
        };
        let y: i128 = if y < MIN_POSITION as i128 {
            MIN_POSITION as i128
        } else if y > MAX_POSITION as i128 {
            MAX_POSITION as i128
        } else {
            y
        };
        Area { x: x as i32, y: y as i32, width: self.width, height: self.height }
    }

    /// The x-position of the left side.
    pub fn left_side(&self) -> (at: i64)
        ensures
            at == self.left(),
    {
        self.x as i64
    }

    /// The x-position of the right side.
    pub fn right_side(&self) -> (at: i64)
        ensures
            at == self.right(),
    {
        self.x as i64 + self.width as i64
    }

    /// The y-position of the top side.
    pub fn top_side(&self) -> (at: i64)
        ensures
            at == self.top(),
    {
        self.y as i64
    }

    /// The y-position of the bottom side.
    pub fn bottom_side(&self) -> (at: i64)
        ensures
            at == self.bottom(),
    {
        self.y as i64 + self.height as i64
    }
}

} // verus!
