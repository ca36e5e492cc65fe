use vstd::prelude::*;

use oorandom::Rand32;

use crate::color::Color;
use crate::image::Image;
use crate::pattern8::{dx, dy, neighbor, on_grid, Pattern8};
use crate::vec2::Vec2;
use crate::weighted::{get_random_index, prefix_weight, selects, total};

verus! {

/// What a colour option is in the model: its colour and the patterns that
/// support it. Its weight is the number of those patterns.
pub ghost struct ColorOption {
    pub color: Color,
    pub patterns: Seq<Pattern8>,
}

/// A colour still possible at a cell, with the source patterns that support
/// it; `weight` counts them.
#[derive(Clone, Debug)]
pub struct ColorSuperposition {
    pub color: Color,
    pub patterns: Vec<Pattern8>,
    pub weight: usize,
}

/// The domain of a cell: the colours still possible there, each at most once.
#[derive(Clone, Debug)]
pub struct PixelSuperposition {
    pub colors: Vec<ColorSuperposition>,
}

/// The output grid: one domain per cell, row by row, and the generator that
/// every weighted draw of a run takes its numbers from.
#[derive(Debug)]
pub struct ImageSuperposition {
    pub width: u32,
    pub height: u32,
    pub pixels: Vec<PixelSuperposition>,
    pub rng: Rand32,
}

impl View for ColorSuperposition {
    type V = ColorOption;

    open spec fn view(&self) -> ColorOption {
        ColorOption { color: self.color, patterns: self.patterns@ }
    }
}

impl View for PixelSuperposition {
    type V = Seq<ColorOption>;

    open spec fn view(&self) -> Seq<ColorOption> {
        self.colors@.map_values(|o: ColorSuperposition| o@)
    }
}

/// The sum over the options of a domain of one plus its pattern count: what
/// propagation can still remove from it.
pub open spec fn domain_mass(d: Seq<ColorOption>) -> nat
    decreases d.len(),
{
    if d.len() == 0 {
        0
    } else {
        domain_mass(d.drop_last()) + 1 + d.last().patterns.len()
    }
}

/// The sum of the domain masses of a grid.
pub open spec fn grid_mass(cells: Seq<Seq<ColorOption>>) -> nat
    decreases cells.len(),
{
    if cells.len() == 0 {
        0
    } else {
        grid_mass(cells.drop_last()) + domain_mass(cells.last())
    }
}

/// The total weight of a domain.
pub open spec fn domain_weight(d: Seq<ColorOption>) -> nat
    decreases d.len(),
{
    if d.len() == 0 {
        0
    } else {
        domain_weight(d.drop_last()) + d.last().patterns.len()
    }
}

/// No colour occurs twice in the domain.
pub open spec fn colors_unique(d: Seq<ColorOption>) -> bool {
    forall|i: int, j: int| 0 <= i < j < d.len() ==> d[i].color != d[j].color
}

/// Whether some option of `d` has colour `c`.
pub open spec fn has_color(d: Seq<ColorOption>, c: Color) -> bool {
    exists|k: int| 0 <= k < d.len() && #[trigger] d[k].color == c
}

/// The pattern counts of a domain, option by option.
pub open spec fn weights_of(d: Seq<ColorOption>) -> Seq<usize> {
    d.map_values(|o: ColorOption| o.patterns.len() as usize)
}

pub proof fn lemma_weight_le_mass(d: Seq<ColorOption>)
    ensures
        domain_weight(d) <= domain_mass(d),
        d.len() <= domain_mass(d),
        d.len() > 0 ==> domain_mass(d) > 0,
    decreases d.len(),
{
    if d.len() > 0 {
        lemma_weight_le_mass(d.drop_last());
    }
}

impl ColorSuperposition {
    /// At least one supporting pattern, and the weight counts them.
    pub open spec fn wf(&self) -> bool {
        self.patterns@.len() > 0 && self.weight == self.patterns@.len()
    }
}

impl PixelSuperposition {
    pub open spec fn wf(&self) -> bool {
        &&& forall|k: int| 0 <= k < self.colors@.len() ==> (#[trigger] self.colors@[k]).wf()
        &&& colors_unique(self@)
        &&& domain_mass(self@) <= u32::MAX
    }

    /// The weight of option `index`, or `None` past the last option.
    pub fn get_weight_at(&self, index: usize) -> (r: Option<usize>)
        ensures
            r == (if index < self.colors@.len() {
                Some(self.colors@[index as int].weight)
            } else {
                None
            }),
    {
        if index < self.colors.len() {
            Some(self.colors[index].weight)
        } else {
            None
        }
    }
}

impl ImageSuperposition {
    /// The domains of the cells in the model.
    pub open spec fn cells(&self) -> Seq<Seq<ColorOption>> {
        self.pixels@.map_values(|p: PixelSuperposition| p@)
    }

    pub open spec fn wf(&self) -> bool {
        &&& self.pixels@.len() == self.width * self.height
        &&& self.width * self.height <= usize::MAX
        &&& self.width <= i32::MAX
        &&& self.height <= i32::MAX
        &&& forall|i: int| 0 <= i < self.pixels@.len() ==> (#[trigger] self.pixels@[i]).wf()
    }
}

/// A domain with at most one option: it needs no further decision.
pub fn is_collapsed(pixel_sp: &PixelSuperposition) -> (r: bool)
    ensures
        r == (pixel_sp@.len() <= 1),
{
    pixel_sp.colors.len() <= 1
}

/// The total weight of a domain, counted as its number of patterns.
pub fn calc_total_weight(pixel_sp: &PixelSuperposition) -> (r: usize)
    requires
        pixel_sp.wf(),
    ensures
        r == domain_weight(pixel_sp@),
{
    let mut total: usize = 0;
    let mut i: usize = 0;
    proof {
        lemma_weight_le_mass(pixel_sp@);
    }
    while i < pixel_sp.colors.len()
        invariant
            pixel_sp.wf(),
            i <= pixel_sp@.len(),
            total == domain_weight(pixel_sp@.take(i as int)),
            domain_weight(pixel_sp@) <= u32::MAX,
        decreases pixel_sp@.len() - i,
    {
        proof {
            let d = pixel_sp@;
            assert(d.take(i + 1).drop_last() == d.take(i as int));
            lemma_weight_prefix(d, i + 1);
        }
        total = total + pixel_sp.colors[i].patterns.len();
        i = i + 1;
    }
    proof {
        assert(pixel_sp@.take(i as int) == pixel_sp@);
    }
    total
}

/// Same as [`calc_total_weight`].
pub fn calc_weights(pixel_sp: &PixelSuperposition) -> (r: usize)
    requires
        pixel_sp.wf(),
    ensures
        r == domain_weight(pixel_sp@),
{
    calc_total_weight(pixel_sp)
}

/// Prefixes of a domain weigh no more than the domain.
pub proof fn lemma_weight_prefix(d: Seq<ColorOption>, n: int)
    requires
        0 <= n <= d.len(),
    ensures
        domain_weight(d.take(n)) <= domain_weight(d),
    decreases d.len() - n,
{
    if n < d.len() {
        lemma_weight_prefix(d, n + 1);
        assert(d.take(n + 1).drop_last() == d.take(n));
    } else {
        assert(d.take(n) == d);
    }
}

/// The index of the option of colour `color`, if the domain has one.
pub fn get_color_index(color: Color, pixel_sp: &PixelSuperposition) -> (r: Option<usize>)
    ensures
        r matches Some(i) ==> i < pixel_sp@.len() && pixel_sp@[i as int].color == color && forall|k: int|
            0 <= k < i ==> pixel_sp@[k].color != color,
        r is None <==> !has_color(pixel_sp@, color),
{
    let mut i: usize = 0;
    while i < pixel_sp.colors.len()
        invariant
            i <= pixel_sp@.len(),
            forall|k: int| 0 <= k < i ==> pixel_sp@[k].color != color,
        decreases pixel_sp@.len() - i,
    {
        if pixel_sp.colors[i].color == color {
            assert(pixel_sp@[i as int].color == color);
            return Some(i);
        }
        i = i + 1;
    }
    None
}

/// The source positions below `n`, in scan order, whose colour is `c`.
pub open spec fn positions_of(img: Image, c: Color, n: int) -> Seq<int>
    decreases n,
{
    if n <= 0 {
        Seq::empty()
    } else {
        let t = positions_of(img, c, n - 1);
        if img.colors@[n - 1] == c {
            t.push(n - 1)
        } else {
            t
        }
    }
}

/// `pat` holds, slot by slot, the neighbours of source position `p`.
pub open spec fn pattern_of(img: Image, p: int, pat: Pattern8) -> bool {
    forall|s: int|
        0 <= s < 8 ==> #[trigger] pat.slot(s) == img.color_at(
            p % (img.width as int) + dx(s),
            p / (img.width as int) + dy(s),
        )
}

/// `d` is the catalog of the first `n` source pixels: one option for each
/// colour among them, holding the neighbourhoods of the pixels of that colour
/// in scan order.
pub open spec fn is_catalog(img: Image, d: Seq<ColorOption>, n: int) -> bool {
    &&& colors_unique(d)
    &&& forall|q: int| 0 <= q < n ==> has_color(d, #[trigger] img.colors@[q])
    &&& forall|k: int|
        0 <= k < d.len() ==> {
            let ps = positions_of(img, #[trigger] d[k].color, n);
            &&& d[k].patterns.len() == ps.len()
            &&& d[k].patterns.len() > 0
            &&& forall|t: int|
                0 <= t < ps.len() ==> pattern_of(img, ps[t], #[trigger] d[k].patterns[t])
        }
}

pub proof fn lemma_positions_of(img: Image, c: Color, n: int)
    requires
        n <= img.colors@.len(),
    ensures
        forall|t: int|
            0 <= t < positions_of(img, c, n).len() ==> 0 <= #[trigger] positions_of(img, c, n)[t]
                < n && img.colors@[positions_of(img, c, n)[t]] == c,
    decreases n,
{
    if n > 0 {
        lemma_positions_of(img, c, n - 1);
        let t0 = positions_of(img, c, n - 1);
        let ps = positions_of(img, c, n);
        assert forall|t: int| 0 <= t < ps.len() implies 0 <= #[trigger] ps[t] < n
            && img.colors@[ps[t]] == c by {
            if t < t0.len() {
                assert(ps[t] == t0[t]);
            }
        }
    }
}

pub proof fn lemma_mass_push(d: Seq<ColorOption>, o: ColorOption)
    ensures
        domain_mass(d.push(o)) == domain_mass(d) + 1 + o.patterns.len(),
        domain_weight(d.push(o)) == domain_weight(d) + o.patterns.len(),
{
    assert(d.push(o).drop_last() == d);
}

pub proof fn lemma_mass_update(d: Seq<ColorOption>, i: int, o: ColorOption)
    requires
        0 <= i < d.len(),
    ensures
        domain_mass(d.update(i, o)) + d[i].patterns.len() == domain_mass(d) + o.patterns.len(),
    decreases d.len(),
{
    if i < d.len() - 1 {
        lemma_mass_update(d.drop_last(), i, o);
        assert(d.update(i, o).drop_last() == d.drop_last().update(i, o));
    } else {
        assert(d.update(i, o).drop_last() == d.drop_last());
    }
}

/// Builds the catalog of a source image: for each colour that occurs in it,
/// one option that holds, in scan order, the neighbourhood of every pixel of
/// that colour.
pub fn catalog(image: &Image) -> (r: PixelSuperposition)
    requires
        image.wf(),
        image.width <= i32::MAX,
        image.height <= i32::MAX,
        2 * image.colors@.len() <= u32::MAX,
    ensures
        r.wf(),
        is_catalog(*image, r@, image.colors@.len() as int),
{
    let mut pixel_sp = PixelSuperposition { colors: Vec::new() };
    let n = image.colors.len();
    let mut p: usize = 0;
    proof {
        assert(pixel_sp@ =~= Seq::<ColorOption>::empty());
    }
    while p < n
        invariant
            image.wf(),
            image.width <= i32::MAX,
            image.height <= i32::MAX,
            2 * n <= u32::MAX,
            n == image.colors@.len(),
            p <= n,
            forall|k: int| 0 <= k < pixel_sp.colors@.len() ==> (#[trigger] pixel_sp.colors@[k]).wf(),
            is_catalog(*image, pixel_sp@, p as int),
            domain_mass(pixel_sp@) <= 2 * p,
        decreases n - p,
    {
        let w = image.width;
        proof {
            assert(w > 0 && image.height > 0) by (nonlinear_arith)
                requires
                    0 <= p < w * image.height,
                    w >= 0,
                    image.height >= 0,
            ;
            assert(p as int / (w as int) < image.height) by (nonlinear_arith)
                requires
                    0 <= p < w * image.height,
                    w > 0,
            ;
            assert(p as int % (w as int) < w);
        }
        let pos = Vec2::from_index(p, w);
        proof {
            assert(pos.y * w + pos.x == p) by (nonlinear_arith)
                requires
                    w > 0,
                    pos.x == p as int % (w as int),
                    pos.y == p as int / (w as int),
            ;
        }
        let color = image.colors[p];
        let pattern = Pattern8::extract_pattern_at(image, pos);
        let ghost d0 = pixel_sp@;
        let color_index = get_color_index(color, &pixel_sp);
        proof {
            assert(pattern_of(*image, p as int, pattern));
            lemma_positions_of(*image, color, p as int);
        }
        match color_index {
            Some(ci) => {
                let ghost o0 = pixel_sp.colors@[ci as int];
                pixel_sp.colors[ci].patterns.push(pattern);
                pixel_sp.colors[ci].weight = pixel_sp.colors[ci].patterns.len();
                proof {
                    let o1 = ColorOption { color, patterns: o0.patterns@.push(pattern) };
                    assert(pixel_sp@ =~= d0.update(ci as int, o1));
                    lemma_mass_update(d0, ci as int, o1);
                    let d = pixel_sp@;
                    assert forall|q: int| 0 <= q < p + 1 implies has_color(
                        d,
                        #[trigger] image.colors@[q],
                    ) by {
                        if q < p {
                            assert(has_color(d0, image.colors@[q]));
                            let k = choose|k: int|
                                0 <= k < d0.len() && #[trigger] d0[k].color == image.colors@[q];
                            assert(d[k].color == d0[k].color);
                        } else {
                            assert(d[ci as int].color == color);
                        }
                    }
                    assert forall|k: int| 0 <= k < d.len() implies {
                        let ps = positions_of(*image, #[trigger] d[k].color, p + 1);
                        &&& d[k].patterns.len() == ps.len()
                        &&& d[k].patterns.len() > 0
                        &&& forall|t: int|
                            0 <= t < ps.len() ==> pattern_of(
                                *image,
                                ps[t],
                                #[trigger] d[k].patterns[t],
                            )
                    } by {
                        let ps0 = positions_of(*image, d0[k].color, p as int);
                        if k == ci {
                            assert(d[k].patterns == d0[k].patterns.push(pattern));
                        } else {
                            assert(d[k] == d0[k]);
                            assert(d0[k].color != color);
                        }
                    }
                    assert(forall|k: int|
                        0 <= k < pixel_sp.colors@.len() ==> (#[trigger] pixel_sp.colors@[k]).wf());
                }
            },
            None => {
                let mut patterns: Vec<Pattern8> = Vec::new();
                patterns.push(pattern);
                let o = ColorSuperposition { color, patterns, weight: 1 };
                pixel_sp.colors.push(o);
                proof {
                    assert(pixel_sp@ =~= d0.push(o@));
                    lemma_mass_push(d0, o@);
                    let d = pixel_sp@;
                    assert(positions_of(*image, color, p as int).len() == 0) by {
                        let ps = positions_of(*image, color, p as int);
                        if ps.len() > 0 {
                            let q = ps[0];
                            assert(image.colors@[q] == color);
                            assert(has_color(d0, image.colors@[q]));
                        }
                    }
                    assert forall|q: int| 0 <= q < p + 1 implies has_color(
                        d,
                        #[trigger] image.colors@[q],
                    ) by {
                        if q < p {
                            assert(has_color(d0, image.colors@[q]));
                            let k = choose|k: int|
                                0 <= k < d0.len() && #[trigger] d0[k].color == image.colors@[q];
                            assert(d[k].color == d0[k].color);
                        } else {
                            assert(d[d.len() - 1].color == color);
                        }
                    }
                    assert forall|k: int| 0 <= k < d.len() implies {
                        let ps = positions_of(*image, #[trigger] d[k].color, p + 1);
                        &&& d[k].patterns.len() == ps.len()
                        &&& d[k].patterns.len() > 0
                        &&& forall|t: int|
                            0 <= t < ps.len() ==> pattern_of(
                                *image,
                                ps[t],
                                #[trigger] d[k].patterns[t],
                            )
                    } by {
                        if k == d.len() - 1 {
                            assert(d[k].patterns == seq![pattern]);
                            assert(positions_of(*image, color, p + 1) == seq![p as int]);
                        } else {
                            assert(d[k] == d0[k]);
                            assert(d0[k].color != color);
                        }
                    }
                    assert(colors_unique(d));
                }
            },
        }
        p = p + 1;
    }
    pixel_sp
}

impl ColorSuperposition {
    /// A copy that shares nothing with this option.
    pub fn duplicate(&self) -> (r: Self)
        ensures
            r@ == self@,
            r.weight == self.weight,
    {
        let mut patterns: Vec<Pattern8> = Vec::new();
        let mut i: usize = 0;
        while i < self.patterns.len()
            invariant
                i <= self.patterns@.len(),
                patterns@ == self.patterns@.take(i as int),
            decreases self.patterns@.len() - i,
        {
            patterns.push(self.patterns[i]);
            i = i + 1;
            assert(patterns@ =~= self.patterns@.take(i as int));
        }
        assert(patterns@ =~= self.patterns@);
        ColorSuperposition { color: self.color, patterns, weight: self.weight }
    }
}

impl PixelSuperposition {
    /// A copy that shares nothing with this domain.
    pub fn duplicate(&self) -> (r: Self)
        ensures
            r@ == self@,
            self.wf() ==> r.wf(),
    {
        let mut colors: Vec<ColorSuperposition> = Vec::new();
        let mut i: usize = 0;
        while i < self.colors.len()
            invariant
                i <= self.colors@.len(),
                colors@.len() == i,
                forall|k: int|
                    0 <= k < i ==> (#[trigger] colors@[k])@ == self.colors@[k]@ && colors@[k].weight
                        == self.colors@[k].weight,
            decreases self.colors@.len() - i,
        {
            colors.push(self.colors[i].duplicate());
            i = i + 1;
        }
        let r = PixelSuperposition { colors };
        assert(r@ =~= self@);
        assert forall|k: int| 0 <= k < i implies (#[trigger] r.colors@[k]).wf()
            == self.colors@[k].wf() by {
            assert(r.colors@[k]@ == self.colors@[k]@);
            assert(r@[k] == self@[k]);
        }
        r
    }
}

impl ImageSuperposition {
    /// A grid of `width` by `height` empty cells whose draws come from a
    /// generator seeded with `seed`.
    pub fn new(width: u32, height: u32, seed: u64) -> (r: Self)
        requires
            width <= i32::MAX,
            height <= i32::MAX,
            width * height <= usize::MAX,
        ensures
            r.wf(),
            r.width == width,
            r.height == height,
            forall|i: int| 0 <= i < r.cells().len() ==> (#[trigger] r.cells()[i]).len() == 0,
    {
        let n = width as usize * height as usize;
        let mut pixels: Vec<PixelSuperposition> = Vec::new();
        let mut i: usize = 0;
        while i < n
            invariant
                i <= n,
                pixels@.len() == i,
                forall|k: int| 0 <= k < i ==> (#[trigger] pixels@[k]).colors@.len() == 0,
            decreases n - i,
        {
            pixels.push(PixelSuperposition { colors: Vec::new() });
            i = i + 1;
        }
        let r = ImageSuperposition { width, height, pixels, rng: Rand32::new(seed) };
        assert forall|k: int| 0 <= k < r.pixels@.len() implies (#[trigger] r.pixels@[k]).wf() by {
            assert(r.pixels@[k]@ =~= Seq::<ColorOption>::empty());
        }
        r
    }

    /// A copy of the whole grid, generator state included, that shares
    /// nothing with it.
    pub fn duplicate(&self) -> (r: Self)
        ensures
            r.cells() == self.cells(),
            r.width == self.width,
            r.height == self.height,
            r.rng == self.rng,
            self.wf() ==> r.wf(),
    {
        let mut pixels: Vec<PixelSuperposition> = Vec::new();
        let mut i: usize = 0;
        while i < self.pixels.len()
            invariant
                i <= self.pixels@.len(),
                pixels@.len() == i,
                forall|k: int|
                    0 <= k < i ==> (#[trigger] pixels@[k])@ == self.pixels@[k]@ && (
                    self.pixels@[k].wf() ==> pixels@[k].wf()),
            decreases self.pixels@.len() - i,
        {
            pixels.push(self.pixels[i].duplicate());
            i = i + 1;
        }
        let r = ImageSuperposition { width: self.width, height: self.height, pixels, rng: self.rng };
        assert(r.cells() =~= self.cells());
        r
    }
}

/// The colour a cell shows: its one colour once collapsed; opaque black
/// where the domain is empty and opaque blue where it is still undecided.
pub open spec fn shown_color(d: Seq<ColorOption>) -> Color {
    if d.len() == 0 {
        Color(0xff000000)
    } else if d.len() > 1 {
        Color(0xffff0000)
    } else {
        d[0].color
    }
}

/// Cell `i` is still undecided and its key is the smallest among those of the
/// undecided cells; no earlier undecided cell has the same key.
pub open spec fn is_first_min(cells: Seq<Seq<ColorOption>>, keys: Seq<u32>, i: int) -> bool {
    &&& 0 <= i < cells.len()
    &&& cells[i].len() > 1
    &&& forall|j: int|
        0 <= j < cells.len() && #[trigger] cells[j].len() > 1 ==> keys[i] <= keys[j] && (j < i
            ==> keys[i] < keys[j])
}

/// Every cell has at most one option.
pub open spec fn all_collapsed(cells: Seq<Seq<ColorOption>>) -> bool {
    forall|i: int| 0 <= i < cells.len() ==> #[trigger] cells[i].len() <= 1
}

/// `keys` holds, for each undecided cell, a score that `score` may return
/// for its domain.
pub open spec fn scored<F: Fn(&PixelSuperposition) -> u32>(
    score: F,
    pixels: Seq<PixelSuperposition>,
    keys: Seq<u32>,
) -> bool {
    &&& keys.len() == pixels.len()
    &&& forall|j: int|
        0 <= j < pixels.len() && (#[trigger] pixels[j])@.len() > 1 ==> score.ensures(
            (&pixels[j],),
            keys[j],
        )
}

pub proof fn lemma_prefix_take(w: Seq<usize>, m: int, n: int)
    requires
        0 <= n <= m <= w.len(),
    ensures
        prefix_weight(w.take(m), n) == prefix_weight(w, n),
    decreases n,
{
    if n > 0 {
        lemma_prefix_take(w, m, n - 1);
    }
}

/// The draw weights of a domain add up to its total weight.
pub proof fn lemma_total_weights(d: Seq<ColorOption>)
    requires
        forall|k: int| 0 <= k < d.len() ==> (#[trigger] d[k]).patterns.len() <= usize::MAX,
    ensures
        total(weights_of(d)) == domain_weight(d),
    decreases d.len(),
{
    if d.len() > 0 {
        let w = weights_of(d);
        lemma_total_weights(d.drop_last());
        assert(weights_of(d.drop_last()) == w.take(w.len() - 1));
        lemma_prefix_take(w, w.len() - 1, w.len() - 1);
        assert(w[w.len() - 1] == d.last().patterns.len());
    }
}

impl Image {
    /// The picture that a grid shows, cell by cell (see [`shown_color`]).
    pub fn from(image_sp: &ImageSuperposition) -> (r: Image)
        requires
            image_sp.wf(),
        ensures
            r.wf(),
            r.width == image_sp.width,
            r.height == image_sp.height,
            forall|i: int|
                0 <= i < r.colors@.len() ==> #[trigger] r.colors@[i] == shown_color(
                    image_sp.cells()[i],
                ),
    {
        let mut colors: Vec<Color> = Vec::new();
        let mut i: usize = 0;
        while i < image_sp.pixels.len()
            invariant
                i <= image_sp.pixels@.len(),
                colors@.len() == i,
                forall|k: int|
                    0 <= k < i ==> #[trigger] colors@[k] == shown_color(image_sp.cells()[k]),
            decreases image_sp.pixels@.len() - i,
        {
            let n = image_sp.pixels[i].colors.len();
            if n == 0 {
                colors.push(Color(0xff000000));
            } else if n > 1 {
                colors.push(Color(0xffff0000));
            } else {
                colors.push(image_sp.pixels[i].colors[0].color);
            }
            proof {
                assert(image_sp.cells()[i as int] == image_sp.pixels@[i as int]@);
            }
            i = i + 1;
        }
        Image { width: image_sp.width, height: image_sp.height, colors }
    }
}

impl PixelSuperposition {
    /// The weight of each option, in order.
    pub fn weights(&self) -> (r: Vec<usize>)
        requires
            self.wf(),
        ensures
            r@ == weights_of(self@),
            total(r@) == domain_weight(self@),
            total(r@) <= u32::MAX,
            self@.len() > 0 ==> total(r@) > 0,
    {
        let ghost dom = self@;
        let mut weights: Vec<usize> = Vec::new();
        let mut i: usize = 0;
        while i < self.colors.len()
            invariant
                self.wf(),
                dom == self@,
                i <= dom.len(),
                weights@ == weights_of(dom).take(i as int),
            decreases dom.len() - i,
        {
            proof {
                assert(self.colors@[i as int].wf());
            }
            weights.push(self.colors[i].weight);
            i = i + 1;
            assert(weights@ =~= weights_of(dom).take(i as int));
        }
        proof {
            assert(weights@ =~= weights_of(dom));
            assert forall|k: int| 0 <= k < dom.len() implies (#[trigger] dom[k]).patterns.len()
                <= usize::MAX by {
                lemma_option_mass(dom, k);
            }
            lemma_total_weights(dom);
            lemma_weight_le_mass(dom);
            assert forall|k: int| 0 <= k < dom.len() implies (#[trigger] dom[k]).patterns.len() > 0 by {
                assert(self.colors@[k].wf());
            }
            lemma_weight_positive(dom);
        }
        weights
    }

    /// Draws the index of one option, with probability proportional to its
    /// weight (see [`get_random_index`]); `None` only for an empty domain.
    pub fn get_random_index(&self, rng: &mut Rand32) -> (r: Option<usize>)
        requires
            self.wf(),
        ensures
            r is None <==> self@.len() == 0,
            r matches Some(i) ==> exists|d: int|
                0 <= d < domain_weight(self@) && #[trigger] selects(weights_of(self@), d, i as int),
    {
        let weights = self.weights();
        get_random_index(&weights, rng)
    }
}

impl ImageSuperposition {
    /// Seeds every cell with the catalog of `image` (see [`catalog`]). An
    /// empty source image is not accepted.
    pub fn extract(&mut self, image: Image)
        requires
            old(self).wf(),
            image.wf(),
            image.colors@.len() > 0,
            image.width <= i32::MAX,
            image.height <= i32::MAX,
            2 * image.colors@.len() <= u32::MAX,
        ensures
            final(self).wf(),
            final(self).width == old(self).width,
            final(self).height == old(self).height,
            final(self).rng == old(self).rng,
            forall|i: int|
                0 <= i < final(self).cells().len() ==> is_catalog(
                    image,
                    #[trigger] final(self).cells()[i],
                    image.colors@.len() as int,
                ),
            forall|i: int, j: int|
                0 <= i < final(self).cells().len() && 0 <= j < final(self).cells().len()
                    ==> #[trigger] final(self).cells()[i] == #[trigger] final(self).cells()[j],
            forall|i: int|
                0 <= i < final(self).cells().len() ==> #[trigger] final(self).cells()[i].len() > 0,
    {
        let pixel_sp = catalog(&image);
        let n = self.pixels.len();
        let mut pixels: Vec<PixelSuperposition> = Vec::new();
        let mut i: usize = 0;
        while i < n
            invariant
                i <= n,
                pixel_sp.wf(),
                pixels@.len() == i,
                forall|k: int|
                    0 <= k < i ==> (#[trigger] pixels@[k])@ == pixel_sp@ && pixels@[k].wf(),
            decreases n - i,
        {
            pixels.push(pixel_sp.duplicate());
            i = i + 1;
        }
        self.pixels = pixels;
        proof {
            assert forall|i: int| 0 <= i < self.cells().len() implies #[trigger] self.cells()[i]
                == pixel_sp@ by {
                assert(self.cells()[i] == self.pixels@[i]@);
            }
            assert(has_color(pixel_sp@, image.colors@[0]));
        }
    }

    /// Whether cell `pixel_index` has at most one option left.
    pub fn is_collapsed_at(&self, pixel_index: usize) -> (r: bool)
        requires
            pixel_index < self.pixels@.len(),
        ensures
            r == (self.cells()[pixel_index as int].len() <= 1),
    {
        is_collapsed(&self.pixels[pixel_index])
    }

    /// The colour of cell `pixel_index` once it holds exactly one option;
    /// `None` while it is undecided or when its domain is empty.
    pub fn get_collapsed_color_at(&self, pixel_index: usize) -> (r: Option<Color>)
        requires
            pixel_index < self.pixels@.len(),
        ensures
            r == (if self.cells()[pixel_index as int].len() == 1 {
                Some(self.cells()[pixel_index as int][0].color)
            } else {
                None::<Color>
            }),
    {
        let pixel_sp = &self.pixels[pixel_index];
        proof {
            assert(self.cells()[pixel_index as int] == pixel_sp@);
        }
        if pixel_sp.colors.len() == 1 {
            Some(pixel_sp.colors[0].color)
        } else {
            None
        }
    }

    /// The first undecided cell of smallest key, where `keys` holds one key
    /// per cell; `None` when every cell is collapsed.
    pub fn search_by_keys(&self, keys: &Vec<u32>) -> (r: Option<usize>)
        requires
            keys@.len() == self.pixels@.len(),
        ensures
            r is None <==> all_collapsed(self.cells()),
            r matches Some(i) ==> is_first_min(self.cells(), keys@, i as int),
    {
        let mut min_index: Option<usize> = None;
        let mut i: usize = 0;
        while i < self.pixels.len()
            invariant
                keys@.len() == self.pixels@.len(),
                i <= self.pixels@.len(),
                min_index is None ==> forall|j: int|
                    0 <= j < i ==> #[trigger] self.cells()[j].len() <= 1,
                min_index matches Some(m) ==> m < i && is_first_min(
                    self.cells().take(i as int),
                    keys@,
                    m as int,
                ),
            decreases self.pixels@.len() - i,
        {
            proof {
                assert(self.cells()[i as int] == self.pixels@[i as int]@);
                assert forall|j: int| 0 <= j < i implies #[trigger] self.cells().take(
                    i as int,
                )[j] == self.cells().take(i + 1)[j] by {}
            }
            if !is_collapsed(&self.pixels[i]) {
                match min_index {
                    None => {
                        min_index = Some(i);
                    },
                    Some(m) => {
                        if keys[i] < keys[m] {
                            min_index = Some(i);
                        }
                    },
                }
            }
            i = i + 1;
        }
        proof {
            assert(self.cells().take(i as int) == self.cells());
        }
        min_index
    }

    /// The first undecided cell of smallest score, where `score` rates the
    /// domain of each undecided cell; `None` when every cell is collapsed.
    pub fn search<F: Fn(&PixelSuperposition) -> u32>(&self, score: &F) -> (r: Option<usize>)
        requires
            forall|p: &PixelSuperposition| #[trigger] score.requires((p,)),
        ensures
            r is None <==> all_collapsed(self.cells()),
            r matches Some(i) ==> exists|keys: Seq<u32>|
                scored(*score, self.pixels@, keys) && #[trigger] is_first_min(
                    self.cells(),
                    keys,
                    i as int,
                ),
    {
        let mut keys: Vec<u32> = Vec::new();
        let mut i: usize = 0;
        while i < self.pixels.len()
            invariant
                i <= self.pixels@.len(),
                keys@.len() == i,
                forall|p: &PixelSuperposition| #[trigger] score.requires((p,)),
                forall|j: int|
                    0 <= j < i && (#[trigger] self.pixels@[j])@.len() > 1 ==> score.ensures(
                        (&self.pixels@[j],),
                        keys@[j],
                    ),
            decreases self.pixels@.len() - i,
        {
            if is_collapsed(&self.pixels[i]) {
                keys.push(0);
            } else {
                let k = score(&self.pixels[i]);
                keys.push(k);
            }
            i = i + 1;
        }
        let r = self.search_by_keys(&keys);
        proof {
            assert(scored(*score, self.pixels@, keys@));
        }
        r
    }

    /// Collapses cell `pixel_index` to one of its options, drawn with
    /// probability proportional to its weight, and returns that option's
    /// index in the domain as it was.
    pub fn collapse(&mut self, pixel_index: usize) -> (r: usize)
        requires
            old(self).wf(),
            pixel_index < old(self).pixels@.len(),
            old(self).cells()[pixel_index as int].len() > 0,
        ensures
            final(self).wf(),
            final(self).width == old(self).width,
            final(self).height == old(self).height,
            r < old(self).cells()[pixel_index as int].len(),
            final(self).cells() == old(self).cells().update(
                pixel_index as int,
                seq![old(self).cells()[pixel_index as int][r as int]],
            ),
            exists|d: int|
                0 <= d < domain_weight(old(self).cells()[pixel_index as int]) && #[trigger] selects(
                    weights_of(old(self).cells()[pixel_index as int]),
                    d,
                    r as int,
                ),
    {
        let ghost dom = self.cells()[pixel_index as int];
        proof {
            assert(dom == self.pixels@[pixel_index as int]@);
            assert(self.pixels@[pixel_index as int].wf());
        }
        let picked = self.pixels[pixel_index].get_random_index(&mut self.rng);
        let color_index = match picked {
            Some(c) => c,
            None => 0,
        };
        proof {
            assert(picked is Some);
        }
        let chosen = self.pixels[pixel_index].colors[color_index].duplicate();
        let mut colors: Vec<ColorSuperposition> = Vec::new();
        colors.push(chosen);
        let cell = PixelSuperposition { colors };
        proof {
            assert(self.pixels@[pixel_index as int].colors@[color_index as int].wf());
            assert(cell@ =~= seq![dom[color_index as int]]);
            lemma_mass_push(Seq::empty(), dom[color_index as int]);
            assert(seq![dom[color_index as int]] == Seq::<ColorOption>::empty().push(
                dom[color_index as int],
            ));
            lemma_weight_le_mass(dom);
            lemma_option_mass(dom, color_index as int);
        }
        self.pixels.set(pixel_index, cell);
        proof {
            assert(self.cells() =~= old(self).cells().update(
                pixel_index as int,
                seq![dom[color_index as int]],
            ));
        }
        color_index
    }
}

/// A domain of well-formed options has positive weight as soon as it has an
/// option.
pub proof fn lemma_weight_positive(d: Seq<ColorOption>)
    requires
        forall|k: int| 0 <= k < d.len() ==> (#[trigger] d[k]).patterns.len() > 0,
    ensures
        d.len() > 0 ==> domain_weight(d) > 0,
    decreases d.len(),
{
    if d.len() > 1 {
        lemma_weight_positive(d.drop_last());
    }
}

/// One option weighs no more than its domain.
pub proof fn lemma_option_mass(d: Seq<ColorOption>, k: int)
    requires
        0 <= k < d.len(),
    ensures
        1 + d[k].patterns.len() <= domain_mass(d),
    decreases d.len(),
{
    if k < d.len() - 1 {
        lemma_option_mass(d.drop_last(), k);
    }
}

} // verus!
