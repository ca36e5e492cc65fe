use vstd::prelude::*;

use crate::color::Color;
use crate::vec2::Vec2;

verus! {

/// A colour at a position.
#[derive(Clone, Copy, Debug)]
pub struct Pixel {
    pub pos: Vec2,
    pub color: Color,
}

} // verus!
