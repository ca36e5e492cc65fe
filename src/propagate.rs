use vstd::prelude::*;
use vstd::set_lib::{lemma_int_range, lemma_len_subset, set_int_range};

use crate::color::Color;
use crate::consistency::{
    adjacent, consistent, consistent_away_from, lemma_refined_stable, lemma_stable_frame,
    lemma_with_neighbors_contains, stable,
};
use crate::pattern8::{neighbor, on_grid, with_neighbors, Pattern8, PATTERN_SIZE};
use crate::soundness::{
    is_solution, lemma_empty_cell_no_solution, lemma_refined_sub, lemma_steps_sound,
    lemma_steps_sub, sub_grid,
};
use crate::stack_set::StackSet;
use crate::superposition::{
    colors_unique, domain_mass, get_color_index, grid_mass, has_color, lemma_mass_push, ColorOption,
    ColorSuperposition,
    ImageSuperposition, PixelSuperposition,
};

verus! {

/// Some pattern of domain `d` has colour `c` in slot `slot`.
pub open spec fn offers(d: Seq<ColorOption>, slot: int, c: Color) -> bool {
    exists|k: int, t: int|
        0 <= k < d.len() && 0 <= t < d[k].patterns.len() && #[trigger] d[k].patterns[t].slot(slot)
            == Some(c)
}

/// Colour `c` at cell `p` is backed in every direction where `p` has a
/// neighbour: that neighbour's domain has a pattern that holds `c` in the
/// opposite slot.
pub open spec fn supported(
    cells: Seq<Seq<ColorOption>>,
    width: int,
    height: int,
    p: int,
    c: Color,
) -> bool {
    forall|r: int|
        0 <= r < 8 ==> match #[trigger] neighbor(p, r, width, height) {
            Some(q) => offers(cells[q], 7 - r, c),
            None => true,
        }
}

/// One slot of a pattern agrees with the grid: absent exactly where the
/// neighbour is off the grid, and otherwise a colour that the neighbour can
/// still take.
pub open spec fn slot_fits(cells: Seq<Seq<ColorOption>>, nb: Option<int>, c: Option<Color>) -> bool {
    match (nb, c) {
        (None, None) => true,
        (Some(q), Some(col)) => has_color(cells[q], col),
        _ => false,
    }
}

/// Every slot of `pat`, read around cell `p`, agrees with the grid.
pub open spec fn fits(
    cells: Seq<Seq<ColorOption>>,
    width: int,
    height: int,
    p: int,
    pat: Pattern8,
) -> bool {
    forall|r: int|
        0 <= r < 8 ==> #[trigger] slot_fits(cells, neighbor(p, r, width, height), pat.slot(r))
}

pub open spec fn fits_fn(cells: Seq<Seq<ColorOption>>, width: int, height: int, p: int) -> spec_fn(
    Pattern8,
) -> bool {
    |t: Pattern8| fits(cells, width, height, p, t)
}

/// An option of cell `p` after one pass of propagation: dropped where its
/// colour is unsupported or none of its patterns fits, otherwise kept with
/// the patterns that fit.
pub open spec fn refine_option(
    cells: Seq<Seq<ColorOption>>,
    width: int,
    height: int,
    p: int,
    o: ColorOption,
) -> Option<ColorOption> {
    let kept = o.patterns.filter(fits_fn(cells, width, height, p));
    if supported(cells, width, height, p, o.color) && kept.len() > 0 {
        Some(ColorOption { color: o.color, patterns: kept })
    } else {
        None
    }
}

pub open spec fn refine_fn(cells: Seq<Seq<ColorOption>>, width: int, height: int, p: int) -> spec_fn(
    ColorOption,
) -> Option<ColorOption> {
    |o: ColorOption| refine_option(cells, width, height, p, o)
}

/// The domain of cell `p` after one pass of propagation over the grid
/// `cells`.
pub open spec fn refined(cells: Seq<Seq<ColorOption>>, width: int, height: int, p: int) -> Seq<
    ColorOption,
> {
    cells[p].filter_map(refine_fn(cells, width, height, p))
}

/// Every colour of `d.filter_map(f)` is a colour of `d`, when `f` keeps
/// colours.
pub proof fn lemma_filter_map_colors(d: Seq<ColorOption>, f: spec_fn(ColorOption) -> Option<ColorOption>, c: Color)
    requires
        forall|o: ColorOption| #[trigger] f(o) matches Some(o2) ==> o2.color == o.color,
        has_color(d.filter_map(f), c),
    ensures
        has_color(d, c),
    decreases d.len(),
{
    let e = d.filter_map(f);
    let k = choose|k: int| 0 <= k < e.len() && #[trigger] e[k].color == c;
    let rest = d.drop_last().filter_map(f);
    match f(d.last()) {
        Some(s) => {
            if k < rest.len() {
                assert(e[k] == rest[k]);
                assert(has_color(rest, c));
                lemma_filter_map_colors(d.drop_last(), f, c);
                let j = choose|j: int| 0 <= j < d.drop_last().len() && #[trigger] d.drop_last()[j].color == c;
                assert(d[j].color == c);
            } else {
                assert(e[k] == s);
                assert(d[d.len() - 1].color == c);
            }
        },
        None => {
            assert(e == rest);
            lemma_filter_map_colors(d.drop_last(), f, c);
            let j = choose|j: int| 0 <= j < d.drop_last().len() && #[trigger] d.drop_last()[j].color == c;
            assert(d[j].color == c);
        },
    }
}

/// Dropping options and keeping colours leaves the colours unique.
pub proof fn lemma_filter_map_unique(d: Seq<ColorOption>, f: spec_fn(ColorOption) -> Option<ColorOption>)
    requires
        forall|o: ColorOption| #[trigger] f(o) matches Some(o2) ==> o2.color == o.color,
        colors_unique(d),
    ensures
        colors_unique(d.filter_map(f)),
    decreases d.len(),
{
    if d.len() > 0 {
        let rest = d.drop_last().filter_map(f);
        lemma_filter_map_unique(d.drop_last(), f);
        match f(d.last()) {
            Some(s) => {
                let e = d.filter_map(f);
                assert(e == rest.push(s));
                if has_color(rest, s.color) {
                    lemma_filter_map_colors(d.drop_last(), f, s.color);
                    let j = choose|j: int| 0 <= j < d.drop_last().len() && #[trigger] d.drop_last()[j].color == s.color;
                    assert(d[j].color == d[d.len() - 1].color);
                }
                assert forall|i: int, j: int| 0 <= i < j < e.len() implies e[i].color != e[j].color by {
                    if j == e.len() - 1 {
                        assert(e[i] == rest[i]);
                        if e[i].color == e[j].color {
                            assert(has_color(rest, s.color));
                        }
                    } else {
                        assert(e[i] == rest[i]);
                        assert(e[j] == rest[j]);
                    }
                }
            },
            None => {},
        }
    }
}

/// A sequence of distinct indices below `n` has at most `n` of them.
pub proof fn lemma_distinct_bounded(s: Seq<usize>, n: int)
    requires
        s.no_duplicates(),
        forall|i: int| 0 <= i < s.len() ==> s[i] < n,
        0 <= n,
    ensures
        s.len() <= n,
{
    let si = s.map_values(|v: usize| v as int);
    assert(si.no_duplicates()) by {
        assert forall|i: int, j: int| 0 <= i < si.len() && 0 <= j < si.len() && i != j implies si[i]
            != si[j] by {
            assert(s[i] != s[j]);
        }
    }
    si.unique_seq_to_set();
    lemma_int_range(0, n);
    assert(si.to_set().subset_of(set_int_range(0, n))) by {
        assert forall|v: int| si.to_set().contains(v) implies set_int_range(0, n).contains(v) by {
            assert(si.contains(v));
            let i = choose|i: int| 0 <= i < si.len() && si[i] == v;
            assert(s[i] < n);
        }
    }
    lemma_len_subset(si.to_set(), set_int_range(0, n));
}

pub proof fn lemma_grid_mass_update(cells: Seq<Seq<ColorOption>>, i: int, d: Seq<ColorOption>)
    requires
        0 <= i < cells.len(),
    ensures
        grid_mass(cells.update(i, d)) + domain_mass(cells[i]) == grid_mass(cells) + domain_mass(d),
    decreases cells.len(),
{
    if i < cells.len() - 1 {
        lemma_grid_mass_update(cells.drop_last(), i, d);
        assert(cells.update(i, d).drop_last() == cells.drop_last().update(i, d));
    } else {
        assert(cells.update(i, d).drop_last() == cells.drop_last());
    }
}

/// The relation between a grid before and after propagation: no domain
/// grows, collapsed cells stay as they were, no non-empty domain becomes
/// empty unless `contradiction`, and the grid mass does not grow.
pub open spec fn narrowed_grid(
    before: Seq<Seq<ColorOption>>,
    after: Seq<Seq<ColorOption>>,
) -> bool {
    &&& after.len() == before.len()
    &&& forall|i: int| 0 <= i < before.len() ==> #[trigger] after[i].len() <= before[i].len()
    &&& forall|i: int| 0 <= i < before.len() && #[trigger] before[i].len() <= 1 ==> after[i] == before[i]
    &&& grid_mass(after) <= grid_mass(before)
}

/// The grid after one pass of propagation on each cell of `steps` in turn.
pub open spec fn refine_steps(
    cells: Seq<Seq<ColorOption>>,
    width: int,
    height: int,
    steps: Seq<int>,
) -> Seq<Seq<ColorOption>>
    decreases steps.len(),
{
    if steps.len() == 0 {
        cells
    } else {
        let prev = refine_steps(cells, width, height, steps.drop_last());
        prev.update(steps.last(), refined(prev, width, height, steps.last()))
    }
}

/// How many of the passes of `steps` changed the domain they were run on.
pub open spec fn changing_steps(
    cells: Seq<Seq<ColorOption>>,
    width: int,
    height: int,
    steps: Seq<int>,
) -> nat
    decreases steps.len(),
{
    if steps.len() == 0 {
        0
    } else {
        let prev = refine_steps(cells, width, height, steps.drop_last());
        changing_steps(cells, width, height, steps.drop_last()) + if refined(
            prev,
            width,
            height,
            steps.last(),
        ) == prev[steps.last()] {
            0nat
        } else {
            1nat
        }
    }
}

/// `after` is what passes of propagation on the cells of `steps`, one after
/// the other, make of `before`; no more of those passes changed a domain
/// than the mass that went away, and there were at most as many passes as
/// cells plus eight (the neighbours queued again) for each change.
pub open spec fn propagated_by(
    before: Seq<Seq<ColorOption>>,
    after: Seq<Seq<ColorOption>>,
    width: int,
    height: int,
    steps: Seq<int>,
) -> bool {
    &&& forall|k: int| 0 <= k < steps.len() ==> 0 <= #[trigger] steps[k] < before.len()
    &&& after == refine_steps(before, width, height, steps)
    &&& grid_mass(after) + changing_steps(before, width, height, steps) <= grid_mass(before)
    &&& steps.len() <= before.len() + 8 * changing_steps(before, width, height, steps)
}

/// Propagation never grows a domain: over any number of passes, each one
/// narrowing the grid, no domain ends larger than it started, collapsed
/// cells keep their domain, and the grid mass does not grow.
pub proof fn lemma_propagation_monotone(
    a: Seq<Seq<ColorOption>>,
    b: Seq<Seq<ColorOption>>,
    c: Seq<Seq<ColorOption>>,
)
    requires
        narrowed_grid(a, b),
        narrowed_grid(b, c),
    ensures
        narrowed_grid(a, c),
        forall|i: int| 0 <= i < a.len() ==> #[trigger] c[i].len() <= a[i].len(),
{
    assert forall|i: int| 0 <= i < a.len() && #[trigger] a[i].len() <= 1 implies c[i] == a[i] by {
        assert(b[i] == a[i]);
    }
    assert forall|i: int| 0 <= i < a.len() implies #[trigger] c[i].len() <= a[i].len() by {
        assert(c[i].len() <= b[i].len());
    }
}

/// A grid whose cells all hold the domain `d` has mass `cells.len()` times
/// that of `d`.
pub proof fn lemma_seeded_mass(cells: Seq<Seq<ColorOption>>, d: Seq<ColorOption>)
    requires
        forall|i: int| 0 <= i < cells.len() ==> #[trigger] cells[i] == d,
    ensures
        grid_mass(cells) == cells.len() * domain_mass(d),
    decreases cells.len(),
{
    if cells.len() > 0 {
        let rest = cells.drop_last();
        assert forall|i: int| 0 <= i < rest.len() implies #[trigger] rest[i] == d by {
            assert(rest[i] == cells[i]);
        }
        lemma_seeded_mass(rest, d);
        assert(cells.last() == d);
        assert(grid_mass(cells) == (cells.len() - 1) * domain_mass(d) + domain_mass(d));
        assert((cells.len() - 1) * domain_mass(d) + domain_mass(d) == cells.len() * domain_mass(d))
            by (nonlinear_arith);
    }
}

/// On a grid seeded with the catalog `d`, propagation changes domains at
/// most as many times as the number of cells times the mass of the catalog
/// (its options plus its patterns).
pub proof fn lemma_propagation_bounded(
    before: Seq<Seq<ColorOption>>,
    after: Seq<Seq<ColorOption>>,
    width: int,
    height: int,
    steps: Seq<int>,
    d: Seq<ColorOption>,
)
    requires
        propagated_by(before, after, width, height, steps),
        forall|i: int| 0 <= i < before.len() ==> #[trigger] before[i] == d,
    ensures
        changing_steps(before, width, height, steps) <= before.len() * domain_mass(d),
{
    lemma_seeded_mass(before, d);
}

pub proof fn lemma_with_neighbors_len(s: Seq<usize>, p: int, width: int, height: int, n: int)
    requires
        0 <= n,
    ensures
        with_neighbors(s, p, width, height, n).len() <= s.len() + n,
    decreases n,
{
    if n > 0 {
        lemma_with_neighbors_len(s, p, width, height, n - 1);
    }
}

/// Whether some pattern of `d` holds `c` in slot `slot`.
fn offers_color(d: &PixelSuperposition, slot: usize, c: Color) -> (r: bool)
    requires
        slot < PATTERN_SIZE,
    ensures
        r == offers(d@, slot as int, c),
{
    let mut s: usize = 0;
    while s < d.colors.len()
        invariant
            slot < PATTERN_SIZE,
            s <= d@.len(),
            forall|k: int, t: int|
                0 <= k < s && 0 <= t < d@[k].patterns.len() ==> #[trigger] d@[k].patterns[t].slot(
                    slot as int,
                ) != Some(c),
        decreases d@.len() - s,
    {
        let patterns = &d.colors[s].patterns;
        proof {
            assert(d@[s as int].patterns == patterns@);
        }
        let mut t: usize = 0;
        while t < patterns.len()
            invariant
                slot < PATTERN_SIZE,
                s < d@.len(),
                d@[s as int].patterns == patterns@,
                t <= patterns@.len(),
                forall|u: int|
                    0 <= u < t ==> #[trigger] patterns@[u].slot(slot as int) != Some(c),
            decreases patterns@.len() - t,
        {
            match patterns[t].get_color_at(slot) {
                Some(x) => {
                    if x == c {
                        assert(d@[s as int].patterns[t as int].slot(slot as int) == Some(c));
                        return true;
                    }
                },
                None => {},
            }
            t = t + 1;
        }
        s = s + 1;
    }
    false
}

impl ImageSuperposition {
    /// Whether colour `c` at cell `p` is backed by every neighbour (see
    /// [`supported`]).
    fn color_supported(&self, p: usize, c: Color) -> (r: bool)
        requires
            self.wf(),
            p < self.pixels@.len(),
        ensures
            r == supported(self.cells(), self.width as int, self.height as int, p as int, c),
    {
        let neighbors = Pattern8::get_neighbors_opt(p, self.width, self.height);
        let mut r: usize = 0;
        while r < neighbors.len()
            invariant
                self.wf(),
                p < self.pixels@.len(),
                r <= 8,
                neighbors@.len() == 8,
                forall|s: int|
                    0 <= s < 8 ==> #[trigger] neighbors@[s] == (match neighbor(
                        p as int,
                        s,
                        self.width as int,
                        self.height as int,
                    ) {
                        Some(v) => Some(v as usize),
                        None => None,
                    }),
                forall|s: int|
                    0 <= s < r ==> match #[trigger] neighbor(
                        p as int,
                        s,
                        self.width as int,
                        self.height as int,
                    ) {
                        Some(q) => offers(self.cells()[q], 7 - s, c),
                        None => true,
                    },
            decreases 8 - r,
        {
            proof {
                crate::pattern8::lemma_neighbor_bound(
                    p as int,
                    r as int,
                    self.width as int,
                    self.height as int,
                );
            }
            if let Some(q) = neighbors[r] {
                proof {
                    assert(self.cells()[q as int] == self.pixels@[q as int]@);
                }
                if !offers_color(&self.pixels[q], 7 - r, c) {
                    assert(neighbors@[r as int] == Some(q));
                    assert(!match neighbor(p as int, r as int, self.width as int, self.height as int) {
                        Some(q) => offers(self.cells()[q], 7 - r, c),
                        None => true,
                    });
                    return false;
                }
            }
            r = r + 1;
        }
        true
    }

    /// The patterns of `patterns` that fit around cell `p`, and whether any
    /// was left out.
    fn narrow_patterns(&self, p: usize, patterns: &Vec<Pattern8>) -> (r: (Vec<Pattern8>, bool))
        requires
            self.wf(),
            p < self.pixels@.len(),
        ensures
            r.0@ == patterns@.filter(
                fits_fn(self.cells(), self.width as int, self.height as int, p as int),
            ),
            r.1 == (r.0@.len() < patterns@.len()),
            !r.1 ==> r.0@ == patterns@,
            r.0@.len() <= patterns@.len(),
    {
        let ghost f = fits_fn(self.cells(), self.width as int, self.height as int, p as int);
        let mut kept: Vec<Pattern8> = Vec::new();
        let mut dropped = false;
        let mut j: usize = 0;
        while j < patterns.len()
            invariant
                self.wf(),
                p < self.pixels@.len(),
                f == fits_fn(self.cells(), self.width as int, self.height as int, p as int),
                j <= patterns@.len(),
                kept@ == patterns@.take(j as int).filter(f),
                kept@.len() <= j,
                dropped == (kept@.len() < j),
                !dropped ==> kept@ == patterns@.take(j as int),
            decreases patterns@.len() - j,
        {
            let pat = &patterns[j];
            let ok = self.pattern_fits(p, pat);
            proof {
                reveal(Seq::filter);
                assert(patterns@.take(j + 1).drop_last() == patterns@.take(j as int));
                assert(patterns@.take(j + 1).last() == *pat);
            }
            if ok {
                kept.push(*pat);
                proof {
                    assert(!dropped ==> kept@ =~= patterns@.take(j + 1));
                }
            } else {
                dropped = true;
            }
            j = j + 1;
        }
        proof {
            assert(patterns@.take(j as int) == patterns@);
        }
        (kept, dropped)
    }

    /// The domain of cell `p` after one pass of propagation (see
    /// [`refined`]), and whether it differs from the current one.
    fn refined_domain(&self, p: usize) -> (r: (PixelSuperposition, bool))
        requires
            self.wf(),
            p < self.pixels@.len(),
        ensures
            r.0@ == refined(self.cells(), self.width as int, self.height as int, p as int),
            r.0.wf(),
            r.1 ==> domain_mass(r.0@) < domain_mass(self.cells()[p as int]),
            !r.1 ==> r.0@ == self.cells()[p as int],
            domain_mass(r.0@) <= domain_mass(self.cells()[p as int]),
            r.0@.len() <= self.cells()[p as int].len(),
    {
        let ghost cells = self.cells();
        let ghost d = cells[p as int];
        let ghost f = refine_fn(cells, self.width as int, self.height as int, p as int);
        let old_colors = &self.pixels[p].colors;
        proof {
            assert(d == self.pixels@[p as int]@);
            assert(self.pixels@[p as int].wf());
        }
        let mut new_colors: Vec<ColorSuperposition> = Vec::new();
        let mut has_changed = false;
        let mut k: usize = 0;
        while k < old_colors.len()
            invariant
                self.wf(),
                p < self.pixels@.len(),
                cells == self.cells(),
                d == cells[p as int],
                d == self.pixels@[p as int]@,
                old_colors == &self.pixels@[p as int].colors,
                f == refine_fn(cells, self.width as int, self.height as int, p as int),
                k <= d.len(),
                new_colors@.map_values(|o: ColorSuperposition| o@) == d.take(k as int).filter_map(f),
                forall|m: int| 0 <= m < new_colors@.len() ==> (#[trigger] new_colors@[m]).wf(),
                new_colors@.len() <= k,
                domain_mass(new_colors@.map_values(|o: ColorSuperposition| o@)) <= domain_mass(d.take(k as int)),
                has_changed ==> domain_mass(new_colors@.map_values(|o: ColorSuperposition| o@)) < domain_mass(d.take(k as int)),
                !has_changed ==> new_colors@.map_values(|o: ColorSuperposition| o@) == d.take(k as int),
            decreases d.len() - k,
        {
            let ghost nv = new_colors@.map_values(|o: ColorSuperposition| o@);
            let color = old_colors[k].color;
            proof {
                assert(d[k as int] == old_colors@[k as int]@);
                assert(self.pixels@[p as int].colors@[k as int].wf());
                assert(d.take(k + 1).drop_last() == d.take(k as int));
                assert(d.take(k + 1).last() == d[k as int]);
                lemma_mass_push(d.take(k as int), d[k as int]);
                assert(d.take(k + 1) == d.take(k as int).push(d[k as int]));
            }
            let ok = self.color_supported(p, color);
            if !ok {
                has_changed = true;
                proof {
                    assert(f(d[k as int]) is None);
                }
            } else {
                let (new_patterns, dropped) = self.narrow_patterns(p, &old_colors[k].patterns);
                if dropped {
                    has_changed = true;
                }
                if new_patterns.len() > 0 {
                    let n = new_patterns.len();
                    let o = ColorSuperposition { color, patterns: new_patterns, weight: n };
                    new_colors.push(o);
                    proof {
                        assert(f(d[k as int]) == Some(o@));
                        assert(new_colors@.map_values(|o: ColorSuperposition| o@) =~= nv.push(o@));
                        lemma_mass_push(nv, o@);
                        assert(!dropped ==> o@ == d[k as int]);
                    }
                } else {
                    proof {
                        assert(f(d[k as int]) is None);
                    }
                }
            }
            k = k + 1;
        }
        let r = PixelSuperposition { colors: new_colors };
        proof {
            assert(d.take(k as int) == d);
            assert(r@ == d.filter_map(f));
            assert forall|o: ColorOption| (#[trigger] f(o) matches Some(o2) ==> o2.color == o.color) by {}
            lemma_filter_map_unique(d, f);
        }
        (r, has_changed)
    }

    /// Runs one pass of propagation on cell `pixel_index`: replaces its domain
    /// with [`refined`] of the grid, and returns whether that changed it.
    pub fn collapse_partially(&mut self, pixel_index: usize) -> (r: bool)
        requires
            old(self).wf(),
            pixel_index < old(self).pixels@.len(),
        ensures
            final(self).wf(),
            final(self).width == old(self).width,
            final(self).height == old(self).height,
            final(self).rng == old(self).rng,
            final(self).cells() == old(self).cells().update(
                pixel_index as int,
                refined(
                    old(self).cells(),
                    old(self).width as int,
                    old(self).height as int,
                    pixel_index as int,
                ),
            ),
            r ==> domain_mass(final(self).cells()[pixel_index as int]) < domain_mass(
                old(self).cells()[pixel_index as int],
            ),
            !r ==> final(self).cells() == old(self).cells(),
            sub_grid(final(self).cells(), old(self).cells()),
            final(self).cells()[pixel_index as int].len() <= old(self).cells()[pixel_index as int].len(),
            domain_mass(final(self).cells()[pixel_index as int]) <= domain_mass(
                old(self).cells()[pixel_index as int],
            ),
    {
        let (new_domain, has_changed) = self.refined_domain(pixel_index);
        proof {
            assert(old(self).pixels@[pixel_index as int].wf());
            assert(old(self).cells()[pixel_index as int] == old(self).pixels@[pixel_index as int]@);
        }
        self.pixels.set(pixel_index, new_domain);
        proof {
            assert(self.cells() =~= old(self).cells().update(
                pixel_index as int,
                refined(
                    old(self).cells(),
                    old(self).width as int,
                    old(self).height as int,
                    pixel_index as int,
                ),
            ));
            if !has_changed {
                assert(self.cells() =~= old(self).cells());
            }
            lemma_refined_sub(
                old(self).cells(),
                old(self).width as int,
                old(self).height as int,
                pixel_index as int,
            );
        }
        has_changed
    }

    /// Pops cells off `indices` until it is empty, runs one pass of
    /// propagation on each that is not collapsed, and pushes the neighbours of
    /// each cell whose domain changed. Stops with `false` as soon as a domain
    /// becomes empty. Each change removes an option or a pattern, so there are
    /// at most as many rounds as the grid mass times one more than the cell
    /// count, plus the cells first queued.
    fn propagate_from(&mut self, indices: StackSet) -> (r: bool)
        requires
            old(self).wf(),
            indices.wf(),
            indices.capacity() == old(self).pixels@.len(),
            forall|q: int|
                0 <= q < old(self).pixels@.len() && !indices@.contains(q as usize) ==> #[trigger] stable(
                    old(self).cells(),
                    old(self).width as int,
                    old(self).height as int,
                    q,
                ),
        ensures
            r ==> consistent(final(self).cells(), final(self).width as int, final(self).height as int),
            consistent(old(self).cells(), old(self).width as int, old(self).height as int) ==> r
                && final(self).cells() == old(self).cells(),
            final(self).wf(),
            final(self).width == old(self).width,
            final(self).height == old(self).height,
            final(self).rng == old(self).rng,
            narrowed_grid(old(self).cells(), final(self).cells()),
            exists|steps: Seq<int>|
                #[trigger] propagated_by(
                    old(self).cells(),
                    final(self).cells(),
                    old(self).width as int,
                    old(self).height as int,
                    steps,
                ),
            r ==> forall|i: int|
                0 <= i < old(self).cells().len() && #[trigger] old(self).cells()[i].len() > 0
                    ==> final(self).cells()[i].len() > 0,
            !r ==> exists|i: int|
                0 <= i < final(self).cells().len() && #[trigger] final(self).cells()[i].len() == 0,
    {
        let mut indices = indices;
        let n = self.pixels.len();
        let ghost mut steps: Seq<int> = Seq::empty();
        proof {
            indices.lemma_bounded();
            lemma_distinct_bounded(indices@, n as int);
            assert(propagated_by(
                old(self).cells(),
                self.cells(),
                self.width as int,
                self.height as int,
                steps,
            ));
        }
        loop
            invariant
                propagated_by(
                    old(self).cells(),
                    self.cells(),
                    self.width as int,
                    self.height as int,
                    steps,
                ),
                steps.len() + indices@.len() <= n + 8 * changing_steps(
                    old(self).cells(),
                    self.width as int,
                    self.height as int,
                    steps,
                ),
                consistent(old(self).cells(), old(self).width as int, old(self).height as int)
                    ==> self.cells() == old(self).cells(),
                self.wf(),
                self.width == old(self).width,
                self.height == old(self).height,
                self.rng == old(self).rng,
                n == self.pixels@.len(),
                indices.wf(),
                indices.capacity() == n,
                narrowed_grid(old(self).cells(), self.cells()),
                forall|i: int|
                    0 <= i < old(self).cells().len() && #[trigger] old(self).cells()[i].len() > 0
                        ==> self.cells()[i].len() > 0,
                forall|q: int|
                    0 <= q < n && !indices@.contains(q as usize) ==> #[trigger] stable(
                        self.cells(),
                        self.width as int,
                        self.height as int,
                        q,
                    ),
            decreases grid_mass(self.cells()) * (n + 1) + indices@.len(),
        {
            let ghost mass0 = grid_mass(self.cells());
            let ghost len0 = indices@.len();
            let ghost cells0 = self.cells();
            let ghost queued = indices@;
            proof {
                indices.lemma_bounded();
            }
            match indices.pop() {
                None => {
                    proof {
                        assert(propagated_by(
                            old(self).cells(),
                            self.cells(),
                            self.width as int,
                            self.height as int,
                            steps,
                        ));
                        assert forall|q: int| 0 <= q < n implies #[trigger] stable(
                            self.cells(),
                            self.width as int,
                            self.height as int,
                            q,
                        ) by {
                            assert(!indices@.contains(q as usize));
                        }
                    }
                    return true;
                },
                Some(pixel_index) => {
                    proof {
                        indices.lemma_bounded();
                        assert(len0 > 0);
                        assert(pixel_index == queued[queued.len() - 1]);
                        assert forall|q: int| 0 <= q < n && !(#[trigger] indices@.contains(q as usize)) && q != pixel_index
                            implies !queued.contains(q as usize) by {
                            if queued.contains(q as usize) {
                                let k = choose|k: int| 0 <= k < queued.len() && queued[k] == q as usize;
                                assert(k != queued.len() - 1);
                                assert(indices@[k] == q as usize);
                            }
                        }
                    }
                    if !self.is_collapsed_at(pixel_index) {
                        let ghost queued1 = indices@;
                        let changed = self.collapse_partially(pixel_index);
                        proof {
                            let w = self.width as int;
                            let h = self.height as int;
                            let steps1 = steps.push(pixel_index as int);
                            assert(steps1.drop_last() == steps);
                            assert(refine_steps(old(self).cells(), w, h, steps1) == self.cells());
                            lemma_grid_mass_update(
                                cells0,
                                pixel_index as int,
                                self.cells()[pixel_index as int],
                            );
                            assert(self.cells() == cells0.update(
                                pixel_index as int,
                                self.cells()[pixel_index as int],
                            ));
                            let rf = refined(cells0, w, h, pixel_index as int);
                            if changed {
                                assert(rf != cells0[pixel_index as int]);
                                assert(changing_steps(old(self).cells(), w, h, steps1)
                                    == changing_steps(old(self).cells(), w, h, steps) + 1);
                                if consistent(old(self).cells(), w, h) {
                                    assert(stable(cells0, w, h, pixel_index as int));
                                }
                            } else {
                                assert(rf == self.cells()[pixel_index as int]);
                                assert(rf == cells0[pixel_index as int]);
                                assert(changing_steps(old(self).cells(), w, h, steps1)
                                    == changing_steps(old(self).cells(), w, h, steps));
                            }
                            assert(propagated_by(old(self).cells(), self.cells(), w, h, steps1));
                            steps = steps1;
                        }
                        if changed {
                            proof {
                                lemma_grid_mass_update(
                                    cells0,
                                    pixel_index as int,
                                    self.cells()[pixel_index as int],
                                );
                                assert(self.cells() == cells0.update(
                                    pixel_index as int,
                                    self.cells()[pixel_index as int],
                                ));
                                assert(self.cells()[pixel_index as int] == self.pixels@[pixel_index as int]@);
                            }
                            if self.pixels[pixel_index].colors.len() == 0 {
                                assert(propagated_by(
                                    old(self).cells(),
                                    self.cells(),
                                    self.width as int,
                                    self.height as int,
                                    steps,
                                ));
                                return false;
                            }
                            Pattern8::add_neighbors(
                                &mut indices,
                                pixel_index,
                                self.width,
                                self.height,
                            );
                            proof {
                                let w = self.width as int;
                                let h = self.height as int;
                                lemma_with_neighbors_len(queued1, pixel_index as int, w, h, 8);
                                lemma_with_neighbors_contains(queued1, pixel_index as int, w, h, 8);
                                lemma_refined_stable(cells0, w, h, pixel_index as int);
                                assert forall|q: int| 0 <= q < n && !indices@.contains(q as usize)
                                    implies #[trigger] stable(self.cells(), w, h, q) by {
                                    if q != pixel_index {
                                        assert(!queued1.contains(q as usize));
                                        if adjacent(pixel_index as int, q, w, h) {
                                            let r = choose|r: int| 0 <= r < 8 && #[trigger] neighbor(pixel_index as int, r, w, h) == Some(q);
                                        }
                                        assert(stable(cells0, w, h, q));
                                        lemma_stable_frame(
                                            cells0,
                                            w,
                                            h,
                                            pixel_index as int,
                                            self.cells()[pixel_index as int],
                                            q,
                                        );
                                    }
                                }
                                indices.lemma_bounded();
                                lemma_distinct_bounded(indices@, n as int);
                                let m1 = grid_mass(self.cells());
                                let l1 = indices@.len();
                                assert(m1 * (n + 1) + l1 < mass0 * (n + 1) + len0) by (nonlinear_arith)
                                    requires
                                        m1 + 1 <= mass0,
                                        l1 <= n,
                                        len0 >= 1,
                                ;
                            }
                        }
                    }
                },
            }
        }
    }

    /// Propagates the change of cell `pixel_index` across the grid, starting
    /// from its neighbours (see [`propagate_from`](Self::propagate_from)).
    /// Returns `false` when some domain became empty.
    pub fn propagate(&mut self, pixel_index: usize) -> (r: bool)
        requires
            old(self).wf(),
            pixel_index < old(self).pixels@.len(),
            consistent_away_from(
                old(self).cells(),
                old(self).width as int,
                old(self).height as int,
                pixel_index as int,
            ),
        ensures
            r ==> consistent(final(self).cells(), final(self).width as int, final(self).height as int),
            sub_grid(final(self).cells(), old(self).cells()),
            !r ==> forall|sol: Seq<Seq<ColorOption>>|
                #[trigger] is_solution(sol, old(self).width as int, old(self).height as int)
                    ==> !sub_grid(sol, old(self).cells()),
            final(self).wf(),
            final(self).width == old(self).width,
            final(self).height == old(self).height,
            final(self).rng == old(self).rng,
            narrowed_grid(old(self).cells(), final(self).cells()),
            exists|steps: Seq<int>|
                #[trigger] propagated_by(
                    old(self).cells(),
                    final(self).cells(),
                    old(self).width as int,
                    old(self).height as int,
                    steps,
                ),
            r ==> forall|i: int|
                0 <= i < old(self).cells().len() && #[trigger] old(self).cells()[i].len() > 0
                    ==> final(self).cells()[i].len() > 0,
            !r ==> exists|i: int|
                0 <= i < final(self).cells().len() && #[trigger] final(self).cells()[i].len() == 0,
    {
        let mut indices = StackSet::new(self.pixels.len());
        Pattern8::add_neighbors(&mut indices, pixel_index, self.width, self.height);
        proof {
            let w = self.width as int;
            let h = self.height as int;
            lemma_with_neighbors_contains(Seq::empty(), pixel_index as int, w, h, 8);
            assert forall|q: int| 0 <= q < self.pixels@.len() && !indices@.contains(q as usize)
                implies #[trigger] stable(self.cells(), w, h, q) by {
                if adjacent(pixel_index as int, q, w, h) {
                    let r = choose|r: int| 0 <= r < 8 && #[trigger] neighbor(pixel_index as int, r, w, h) == Some(q);
                }
            }
        }
        let r = self.propagate_from(indices);
        proof {
            let w = old(self).width as int;
            let h = old(self).height as int;
            let steps = choose|steps: Seq<int>|
                #[trigger] propagated_by(old(self).cells(), self.cells(), w, h, steps);
            lemma_steps_sub(old(self).cells(), w, h, steps);
            if !r {
                let e = choose|e: int|
                    0 <= e < self.cells().len() && #[trigger] self.cells()[e].len() == 0;
                assert forall|sol: Seq<Seq<ColorOption>>| #[trigger] is_solution(sol, w, h)
                    implies !sub_grid(sol, old(self).cells()) by {
                    if sub_grid(sol, old(self).cells()) {
                        lemma_steps_sound(sol, old(self).cells(), w, h, steps);
                        lemma_empty_cell_no_solution(sol, self.cells(), w, h, e);
                    }
                }
            }
        }
        r
    }

    /// Propagates across the whole grid, starting from every cell. Returns
    /// `false` when some domain became empty.
    pub fn propagate_all(&mut self) -> (r: bool)
        requires
            old(self).wf(),
        ensures
            r ==> consistent(final(self).cells(), final(self).width as int, final(self).height as int),
            sub_grid(final(self).cells(), old(self).cells()),
            !r ==> forall|sol: Seq<Seq<ColorOption>>|
                #[trigger] is_solution(sol, old(self).width as int, old(self).height as int)
                    ==> !sub_grid(sol, old(self).cells()),
            consistent(old(self).cells(), old(self).width as int, old(self).height as int) ==> r
                && final(self).cells() == old(self).cells(),
            final(self).wf(),
            final(self).width == old(self).width,
            final(self).height == old(self).height,
            final(self).rng == old(self).rng,
            narrowed_grid(old(self).cells(), final(self).cells()),
            exists|steps: Seq<int>|
                #[trigger] propagated_by(
                    old(self).cells(),
                    final(self).cells(),
                    old(self).width as int,
                    old(self).height as int,
                    steps,
                ),
            r ==> forall|i: int|
                0 <= i < old(self).cells().len() && #[trigger] old(self).cells()[i].len() > 0
                    ==> final(self).cells()[i].len() > 0,
            !r ==> exists|i: int|
                0 <= i < final(self).cells().len() && #[trigger] final(self).cells()[i].len() == 0,
    {
        let indices = StackSet::full(self.pixels.len());
        proof {
            assert forall|q: int| 0 <= q < self.pixels@.len() implies #[trigger] indices@.contains(q as usize) by {
                assert(indices@[q] == q as usize);
            }
        }
        let r = self.propagate_from(indices);
        proof {
            let w = old(self).width as int;
            let h = old(self).height as int;
            let steps = choose|steps: Seq<int>|
                #[trigger] propagated_by(old(self).cells(), self.cells(), w, h, steps);
            lemma_steps_sub(old(self).cells(), w, h, steps);
            if !r {
                let e = choose|e: int|
                    0 <= e < self.cells().len() && #[trigger] self.cells()[e].len() == 0;
                assert forall|sol: Seq<Seq<ColorOption>>| #[trigger] is_solution(sol, w, h)
                    implies !sub_grid(sol, old(self).cells()) by {
                    if sub_grid(sol, old(self).cells()) {
                        lemma_steps_sound(sol, old(self).cells(), w, h, steps);
                        lemma_empty_cell_no_solution(sol, self.cells(), w, h, e);
                    }
                }
            }
        }
        r
    }

    /// Whether every slot of `pat`, read around cell `p`, agrees with the
    /// grid (see [`fits`]).
    fn pattern_fits(&self, p: usize, pat: &Pattern8) -> (r: bool)
        requires
            self.wf(),
            p < self.pixels@.len(),
        ensures
            r == fits(self.cells(), self.width as int, self.height as int, p as int, *pat),
    {
        let nc = pat.get_neighbors_and_colors(p, self.width, self.height);
        let mut i: usize = 0;
        while i < nc.len()
            invariant
                self.wf(),
                p < self.pixels@.len(),
                i <= 8,
                nc@.len() == 8,
                forall|s: int|
                    0 <= s < 8 ==> #[trigger] nc@[s] == (
                        match neighbor(p as int, s, self.width as int, self.height as int) {
                            Some(v) => Some(v as usize),
                            None => None,
                        },
                        pat.slot(s),
                    ),
                forall|s: int|
                    0 <= s < i ==> #[trigger] slot_fits(
                        self.cells(),
                        neighbor(p as int, s, self.width as int, self.height as int),
                        pat.slot(s),
                    ),
            decreases 8 - i,
        {
            proof {
                crate::pattern8::lemma_neighbor_bound(
                    p as int,
                    i as int,
                    self.width as int,
                    self.height as int,
                );
            }
            let (neighbor_index, pattern_color) = nc[i];
            assert(nc@[i as int] == (neighbor_index, pattern_color));
            match (neighbor_index, pattern_color) {
                (None, None) => {},
                (Some(q), Some(col)) => {
                    proof {
                        assert(self.cells()[q as int] == self.pixels@[q as int]@);
                    }
                    if get_color_index(col, &self.pixels[q]).is_none() {
                        assert(!slot_fits(
                            self.cells(),
                            neighbor(p as int, i as int, self.width as int, self.height as int),
                            pat.slot(i as int),
                        ));
                        return false;
                    }
                },
                _ => {
                    assert(!slot_fits(
                        self.cells(),
                        neighbor(p as int, i as int, self.width as int, self.height as int),
                        pat.slot(i as int),
                    ));
                    return false;
                },
            }
            i = i + 1;
        }
        true
    }
}

} // verus!
