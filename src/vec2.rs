use vstd::prelude::*;

verus! {

/// An integer position on a grid: `x` grows to the right, `y` downwards.
#[derive(Clone, Copy, Debug, PartialEq, Eq, Structural)]
pub struct Vec2 {
    pub x: i32,
    pub y: i32,
}

/// Whether the point `(x, y)` lies on a `width` by `height` grid.
pub open spec fn inside(x: int, y: int, width: int, height: int) -> bool {
    0 <= x < width && 0 <= y < height
}

impl Vec2 {
    /// The component-wise sum of two positions.
    pub fn add(self, rhs: Vec2) -> (r: Vec2)
        requires
            i32::MIN <= self.x + rhs.x <= i32::MAX,
            i32::MIN <= self.y + rhs.y <= i32::MAX,
        ensures
            r.x == self.x + rhs.x,
            r.y == self.y + rhs.y,
    {
        Vec2 { x: self.x + rhs.x, y: self.y + rhs.y }
    }

    /// The position of the cell at a row-major linear `index` on a grid of the
    /// given `width`.
    pub fn from_index(index: usize, width: u32) -> (r: Vec2)
        requires
            width > 0,
            width <= i32::MAX,
            index as int / (width as int) <= i32::MAX,
        ensures
            r.x == index as int % (width as int),
            r.y == index as int / (width as int),
    {
        let w = width as usize;
        let x = index % w;
        let y = index / w;
        Vec2 { x: x as i32, y: y as i32 }
    }

    /// The row-major linear index of this position on a grid of the given
    /// `width`.
    pub fn into_index(&self, width: u32) -> (r: usize)
        requires
            0 <= self.x < width,
            0 <= self.y,
            self.y * width + self.x <= usize::MAX,
        ensures
            r == self.y * width + self.x,
    {
        let y = self.y as usize;
        let x = self.x as usize;
        let w = width as usize;
        assert(0 <= y * w <= y * w + x) by (nonlinear_arith)
            requires
                0 <= y,
                0 <= w,
                0 <= x,
        ;
        y * w + x
    }

    /// Whether this position lies on a `width` by `height` grid.
    pub fn is_inside(&self, width: u32, height: u32) -> (r: bool)
        ensures
            r == inside(self.x as int, self.y as int, width as int, height as int),
    {
        if self.x < 0 {
            return false;
        }
        if self.y < 0 {
            return false;
        }
        if self.x as i64 >= width as i64 {
            return false;
        }
        if self.y as i64 >= height as i64 {
            return false;
        }
        true
    }
}

} // verus!
