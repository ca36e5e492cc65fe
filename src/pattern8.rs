use vstd::prelude::*;

use crate::color::Color;
use crate::image::Image;
use crate::stack_set::StackSet;
use crate::vec2::{inside, Vec2};

verus! {

/// Slots of the Moore neighbourhood, in their canonical order. The slot
/// opposite to `r` is `7 - r`.
pub const NW: usize = 0;
pub const N: usize = 1;
pub const NE: usize = 2;
pub const W: usize = 3;
pub const E: usize = 4;
pub const SW: usize = 5;
pub const S: usize = 6;
pub const SE: usize = 7;

pub const PATTERN_SIZE: usize = 8;

/// Horizontal offset of neighbourhood slot `r`.
pub open spec fn dx(r: int) -> int {
    if r == 0 || r == 3 || r == 5 {
        -1
    } else if r == 1 || r == 6 {
        0
    } else {
        1
    }
}

/// Vertical offset of neighbourhood slot `r`.
pub open spec fn dy(r: int) -> int {
    if r < 3 {
        -1
    } else if r < 5 {
        0
    } else {
        1
    }
}

/// The slot that points back: `dx` and `dy` of `7 - r` are those of `r`
/// negated.
pub proof fn lemma_opposite(r: int)
    requires
        0 <= r < 8,
    ensures
        dx(7 - r) == -dx(r),
        dy(7 - r) == -dy(r),
{
}

/// What the geometry of a grid needs: each side fits an `i32`, the cell
/// count fits a `usize`, and `index` names a cell.
pub open spec fn on_grid(index: int, width: int, height: int) -> bool {
    &&& 0 <= index < width * height
    &&& width <= i32::MAX
    &&& height <= i32::MAX
    &&& width * height <= usize::MAX
}

/// The cell in slot `r` of the neighbourhood of cell `index` on a row-major
/// grid, or `None` where that lies off the grid.
pub open spec fn neighbor(index: int, r: int, width: int, height: int) -> Option<int> {
    let x = index % width + dx(r);
    let y = index / width + dy(r);
    if inside(x, y, width, height) {
        Some(y * width + x)
    } else {
        None
    }
}

pub proof fn lemma_neighbor_bound(index: int, r: int, width: int, height: int)
    requires
        on_grid(index, width, height),
    ensures
        neighbor(index, r, width, height) matches Some(q) ==> 0 <= q < width * height,
{
    let x = index % width + dx(r);
    let y = index / width + dy(r);
    if inside(x, y, width, height) {
        crate::image::lemma_row_major_bound(x, y, width, height);
    }
}

/// `s` after pushing, slot by slot below `n`, each neighbour of `index` that
/// it does not hold yet.
pub open spec fn with_neighbors(s: Seq<usize>, index: int, width: int, height: int, n: int) -> Seq<
    usize,
>
    decreases n,
{
    if n <= 0 {
        s
    } else {
        let t = with_neighbors(s, index, width, height, n - 1);
        match neighbor(index, n - 1, width, height) {
            Some(q) => if t.contains(q as usize) {
                t
            } else {
                t.push(q as usize)
            },
            None => t,
        }
    }
}

/// The neighbours of `index` that lie on the grid, in slot order below `n`.
pub open spec fn present_neighbors(index: int, width: int, height: int, n: int) -> Seq<usize>
    decreases n,
{
    if n <= 0 {
        Seq::empty()
    } else {
        let t = present_neighbors(index, width, height, n - 1);
        match neighbor(index, n - 1, width, height) {
            Some(q) => t.push(q as usize),
            None => t,
        }
    }
}

/// The offset of neighbourhood slot `r`.
pub fn direction(r: usize) -> (d: Vec2)
    requires
        r < PATTERN_SIZE,
    ensures
        d.x == dx(r as int),
        d.y == dy(r as int),
{
    if r == NW {
        Vec2 { x: -1, y: -1 }
    } else if r == N {
        Vec2 { x: 0, y: -1 }
    } else if r == NE {
        Vec2 { x: 1, y: -1 }
    } else if r == W {
        Vec2 { x: -1, y: 0 }
    } else if r == E {
        Vec2 { x: 1, y: 0 }
    } else if r == SW {
        Vec2 { x: -1, y: 1 }
    } else if r == S {
        Vec2 { x: 0, y: 1 }
    } else {
        Vec2 { x: 1, y: 1 }
    }
}

/// The cell in slot `r` around cell `index`, or `None` off the grid.
pub fn neighbor_at(index: usize, r: usize, width: u32, height: u32) -> (q: Option<usize>)
    requires
        on_grid(index as int, width as int, height as int),
        r < PATTERN_SIZE,
    ensures
        q == (match neighbor(index as int, r as int, width as int, height as int) {
            Some(v) => Some(v as usize),
            None => None,
        }),
        q matches Some(v) ==> v < width * height,
{
    proof {
        assert(width > 0 && height > 0) by (nonlinear_arith)
            requires
                0 <= index < width * height,
                width >= 0,
                height >= 0,
        ;
        assert(index as int / (width as int) < height) by (nonlinear_arith)
            requires
                0 <= index < width * height,
                width > 0,
        ;
        lemma_neighbor_bound(index as int, r as int, width as int, height as int);
    }
    let pos = Vec2::from_index(index, width);
    let p = pos.add(direction(r));
    if p.is_inside(width, height) {
        Some(p.into_index(width))
    } else {
        None
    }
}

/// The colours around one cell of a source image, slot by slot; `None`
/// where the neighbour lies off the image.
#[derive(Clone, Copy, Debug)]
pub struct Pattern8 {
    pub colors: [Option<Color>; PATTERN_SIZE],
}

impl Pattern8 {
    /// The colour in slot `r`.
    pub open spec fn slot(&self, r: int) -> Option<Color> {
        self.colors@[r]
    }

    pub fn get_colors(&self) -> (r: &[Option<Color>; PATTERN_SIZE])
        ensures
            *r == self.colors,
    {
        &self.colors
    }

    pub fn get_color_at(&self, index: usize) -> (r: Option<Color>)
        requires
            index < PATTERN_SIZE,
        ensures
            r == self.slot(index as int),
    {
        self.colors[index]
    }

    /// The neighbourhood of `pos` in `image`.
    pub fn extract_pattern_at(image: &Image, pos: Vec2) -> (r: Self)
        requires
            image.wf(),
            i32::MIN < pos.x < i32::MAX,
            i32::MIN < pos.y < i32::MAX,
        ensures
            forall|s: int|
                0 <= s < 8 ==> #[trigger] r.slot(s) == image.color_at(pos.x + dx(s), pos.y + dy(s)),
    {
        let c0 = image.get_color_at(pos.add(direction(0)));
        let c1 = image.get_color_at(pos.add(direction(1)));
        let c2 = image.get_color_at(pos.add(direction(2)));
        let c3 = image.get_color_at(pos.add(direction(3)));
        let c4 = image.get_color_at(pos.add(direction(4)));
        let c5 = image.get_color_at(pos.add(direction(5)));
        let c6 = image.get_color_at(pos.add(direction(6)));
        let c7 = image.get_color_at(pos.add(direction(7)));
        let r = Pattern8 { colors: [c0, c1, c2, c3, c4, c5, c6, c7] };
        assert(r.colors@ =~= seq![c0, c1, c2, c3, c4, c5, c6, c7]);
        r
    }

    /// A pattern with every slot off the grid.
    pub fn empty() -> (r: Self)
        ensures
            forall|s: int| 0 <= s < 8 ==> #[trigger] r.slot(s) == None::<Color>,
    {
        let r = Pattern8 { colors: [None, None, None, None, None, None, None, None] };
        assert(r.colors@ =~= seq![None, None, None, None, None, None, None, None]);
        r
    }

    /// Pushes onto `indices` every neighbour of cell `index` on the grid.
    pub fn add_neighbors(indices: &mut StackSet, index: usize, width: u32, height: u32)
        requires
            old(indices).wf(),
            old(indices).capacity() == width * height,
            on_grid(index as int, width as int, height as int),
        ensures
            final(indices).wf(),
            final(indices).capacity() == old(indices).capacity(),
            final(indices)@ == with_neighbors(
                old(indices)@,
                index as int,
                width as int,
                height as int,
                8,
            ),
    {
        let mut r: usize = 0;
        while r < PATTERN_SIZE
            invariant
                r <= PATTERN_SIZE,
                indices.wf(),
                indices.capacity() == width * height,
                on_grid(index as int, width as int, height as int),
                indices@ == with_neighbors(
                    old(indices)@,
                    index as int,
                    width as int,
                    height as int,
                    r as int,
                ),
            decreases PATTERN_SIZE - r,
        {
            if let Some(q) = neighbor_at(index, r, width, height) {
                indices.push(q);
            }
            r = r + 1;
        }
    }

    /// The neighbour of `index` in each slot, `None` off the grid.
    pub fn get_neighbors_opt(index: usize, width: u32, height: u32) -> (r: Vec<Option<usize>>)
        requires
            on_grid(index as int, width as int, height as int),
        ensures
            r@.len() == PATTERN_SIZE,
            forall|s: int|
                0 <= s < 8 ==> #[trigger] r@[s] == (match neighbor(
                    index as int,
                    s,
                    width as int,
                    height as int,
                ) {
                    Some(v) => Some(v as usize),
                    None => None,
                }),
    {
        let mut neighbors: Vec<Option<usize>> = Vec::new();
        let mut r: usize = 0;
        while r < PATTERN_SIZE
            invariant
                r <= PATTERN_SIZE,
                neighbors@.len() == r,
                on_grid(index as int, width as int, height as int),
                forall|s: int|
                    0 <= s < r ==> #[trigger] neighbors@[s] == (match neighbor(
                        index as int,
                        s,
                        width as int,
                        height as int,
                    ) {
                        Some(v) => Some(v as usize),
                        None => None,
                    }),
            decreases PATTERN_SIZE - r,
        {
            neighbors.push(neighbor_at(index, r, width, height));
            r = r + 1;
        }
        neighbors
    }

    /// The neighbours of `index` that lie on the grid, in slot order.
    pub fn get_neighbors(index: usize, width: u32, height: u32) -> (r: Vec<usize>)
        requires
            on_grid(index as int, width as int, height as int),
        ensures
            r@ == present_neighbors(index as int, width as int, height as int, 8),
    {
        let mut neighbors: Vec<usize> = Vec::new();
        let mut r: usize = 0;
        while r < PATTERN_SIZE
            invariant
                r <= PATTERN_SIZE,
                on_grid(index as int, width as int, height as int),
                neighbors@ == present_neighbors(index as int, width as int, height as int, r as int),
            decreases PATTERN_SIZE - r,
        {
            if let Some(q) = neighbor_at(index, r, width, height) {
                neighbors.push(q);
            }
            r = r + 1;
        }
        neighbors
    }

    /// For each slot, the neighbour of `index` there (`None` off the grid)
    /// beside this pattern's colour in that slot.
    pub fn get_neighbors_and_colors(&self, index: usize, width: u32, height: u32) -> (r: Vec<
        (Option<usize>, Option<Color>),
    >)
        requires
            on_grid(index as int, width as int, height as int),
        ensures
            r@.len() == PATTERN_SIZE,
            forall|s: int|
                0 <= s < 8 ==> #[trigger] r@[s] == (
                    match neighbor(index as int, s, width as int, height as int) {
                        Some(v) => Some(v as usize),
                        None => None,
                    },
                    self.slot(s),
                ),
    {
        let mut out: Vec<(Option<usize>, Option<Color>)> = Vec::new();
        let mut r: usize = 0;
        while r < PATTERN_SIZE
            invariant
                r <= PATTERN_SIZE,
                out@.len() == r,
                on_grid(index as int, width as int, height as int),
                forall|s: int|
                    0 <= s < r ==> #[trigger] out@[s] == (
                        match neighbor(index as int, s, width as int, height as int) {
                            Some(v) => Some(v as usize),
                            None => None,
                        },
                        self.slot(s),
                    ),
            decreases PATTERN_SIZE - r,
        {
            let q = neighbor_at(index, r, width, height);
            out.push((q, self.colors[r]));
            r = r + 1;
        }
        out
    }
}

} // verus!
