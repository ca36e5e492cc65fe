use vstd::prelude::*;

use crate::color::Color;
use crate::pixel::Pixel;
use crate::vec2::{inside, Vec2};

verus! {

/// A rectangular picture stored row by row.
#[derive(Clone, Debug)]
pub struct Image {
    pub width: u32,
    pub height: u32,
    pub colors: Vec<Color>,
}

/// `y * width + x` lies below `width * height` for every point of the grid.
pub proof fn lemma_row_major_bound(x: int, y: int, width: int, height: int)
    requires
        inside(x, y, width, height),
    ensures
        0 <= y * width <= y * width + x < width * height,
{
    assert(0 <= y * width) by (nonlinear_arith)
        requires
            0 <= y,
            0 <= width,
    ;
    assert(y * width + x < width * height) by (nonlinear_arith)
        requires
            0 <= x < width,
            0 <= y < height,
    ;
}

impl Image {
    /// One colour for each point of the grid.
    pub open spec fn wf(&self) -> bool {
        self.colors@.len() == self.width * self.height
    }

    /// The colour at `(x, y)`, or `None` off the grid.
    pub open spec fn color_at(&self, x: int, y: int) -> Option<Color> {
        if inside(x, y, self.width as int, self.height as int) {
            Some(self.colors@[y * self.width + x])
        } else {
            None
        }
    }

    pub fn get_color_at(&self, pos: Vec2) -> (r: Option<Color>)
        requires
            self.wf(),
        ensures
            r == self.color_at(pos.x as int, pos.y as int),
    {
        if !pos.is_inside(self.width, self.height) {
            return None;
        }
        proof {
            lemma_row_major_bound(pos.x as int, pos.y as int, self.width as int, self.height as int);
        }
        // the index stays below the length of `colors`, hence below usize::MAX
        let _len = self.colors.len();
        let i = pos.y as usize * self.width as usize + pos.x as usize;
        Some(self.colors[i])
    }

    /// Paints one point of the grid.
    pub fn set_pixel(&mut self, pixel: Pixel)
        requires
            old(self).wf(),
            inside(
                pixel.pos.x as int,
                pixel.pos.y as int,
                old(self).width as int,
                old(self).height as int,
            ),
        ensures
            final(self).wf(),
            final(self).width == old(self).width,
            final(self).height == old(self).height,
            final(self).colors@ == old(self).colors@.update(
                pixel.pos.y * old(self).width + pixel.pos.x,
                pixel.color,
            ),
    {
        proof {
            lemma_row_major_bound(
                pixel.pos.x as int,
                pixel.pos.y as int,
                self.width as int,
                self.height as int,
            );
        }
        let _len = self.colors.len();
        let i = pixel.pos.y as usize * self.width as usize + pixel.pos.x as usize;
        self.colors.set(i, pixel.color);
    }
}

} // verus!
