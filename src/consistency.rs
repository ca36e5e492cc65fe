use vstd::arithmetic::div_mod::{lemma_fundamental_div_mod, lemma_fundamental_div_mod_converse};
use vstd::prelude::*;

use crate::pattern8::{dx, dy, lemma_neighbor_bound, lemma_opposite, neighbor, on_grid, with_neighbors, Pattern8};
use crate::propagate::{fits, fits_fn, refine_fn, refined, supported};
use crate::superposition::ColorOption;

verus! {

/// Cell `q` lies in the neighbourhood of cell `p`.
pub open spec fn adjacent(p: int, q: int, width: int, height: int) -> bool {
    exists|r: int| 0 <= r < 8 && #[trigger] neighbor(p, r, width, height) == Some(q)
}

/// Cell `q` is undecided only if one more pass of propagation would leave it
/// as it is: every option and pattern it holds is backed by its neighbours.
pub open spec fn stable(cells: Seq<Seq<ColorOption>>, width: int, height: int, q: int) -> bool {
    cells[q].len() <= 1 || refined(cells, width, height, q) == cells[q]
}

/// Every cell of the grid is stable: the grid is arc-consistent.
pub open spec fn consistent(cells: Seq<Seq<ColorOption>>, width: int, height: int) -> bool {
    forall|q: int| 0 <= q < cells.len() ==> #[trigger] stable(cells, width, height, q)
}

/// Every cell that is not next to `p` is stable.
pub open spec fn consistent_away_from(
    cells: Seq<Seq<ColorOption>>,
    width: int,
    height: int,
    p: int,
) -> bool {
    forall|q: int|
        0 <= q < cells.len() && !adjacent(p, q, width, height) ==> #[trigger] stable(
            cells,
            width,
            height,
            q,
        )
}

/// Neighbourhood is symmetric: if `i` lies in slot `r` around `q`, then `q`
/// lies in the opposite slot around `i`.
pub proof fn lemma_neighbor_symmetric(q: int, r: int, width: int, height: int)
    requires
        on_grid(q, width, height),
        0 <= r < 8,
    ensures
        neighbor(q, r, width, height) matches Some(i) ==> on_grid(i, width, height) && neighbor(
            i,
            7 - r,
            width,
            height,
        ) == Some(q),
{
    if let Some(i) = neighbor(q, r, width, height) {
        assert(width > 0 && height > 0) by (nonlinear_arith)
            requires
                0 <= q < width * height,
                width >= 0,
                height >= 0,
        ;
        lemma_neighbor_bound(q, r, width, height);
        lemma_opposite(r);
        let qx = q % width;
        let qy = q / width;
        let x = qx + dx(r);
        let y = qy + dy(r);
        lemma_fundamental_div_mod_converse(i, width, y, x);
        lemma_fundamental_div_mod(q, width);
        assert(qy < height) by (nonlinear_arith)
            requires
                0 <= q < width * height,
                width > 0,
                qy == q / width,
        ;
        assert(0 <= qy) by (nonlinear_arith)
            requires
                0 <= q,
                width > 0,
                qy == q / width,
        ;
        assert(qy * width + qx == q) by (nonlinear_arith)
            requires
                q == width * qy + qx,
        ;
    }
}

/// A cell is never its own neighbour.
pub proof fn lemma_neighbor_distinct(q: int, r: int, width: int, height: int)
    requires
        on_grid(q, width, height),
        0 <= r < 8,
    ensures
        neighbor(q, r, width, height) != Some(q),
{
    if let Some(i) = neighbor(q, r, width, height) {
        lemma_neighbor_symmetric(q, r, width, height);
        assert(width > 0) by (nonlinear_arith)
            requires
                0 <= q < width * height,
                width >= 0,
                height >= 0,
        ;
        lemma_fundamental_div_mod_converse(i, width, q / width + dy(r), q % width + dx(r));
    }
}

/// Pushing the neighbours of `p` keeps what was held and adds each of them.
pub proof fn lemma_with_neighbors_contains(
    s: Seq<usize>,
    p: int,
    width: int,
    height: int,
    n: int,
)
    requires
        0 <= n <= 8,
    ensures
        forall|v: usize| s.contains(v) ==> #[trigger] with_neighbors(s, p, width, height, n).contains(
            v,
        ),
        forall|r: int|
            0 <= r < n ==> (#[trigger] neighbor(p, r, width, height) matches Some(q)
                ==> with_neighbors(s, p, width, height, n).contains(q as usize)),
    decreases n,
{
    if n > 0 {
        lemma_with_neighbors_contains(s, p, width, height, n - 1);
        let t = with_neighbors(s, p, width, height, n - 1);
        let u = with_neighbors(s, p, width, height, n);
        assert forall|v: usize| t.contains(v) implies u.contains(v) by {
            if u != t {
                let k = choose|k: int| 0 <= k < t.len() && t[k] == v;
                assert(u[k] == v);
            }
        }
        if let Some(q) = neighbor(p, n - 1, width, height) {
            if !t.contains(q as usize) {
                assert(u[u.len() - 1] == q as usize);
            }
        }
    }
}

/// What one pass of propagation does to an option of cell `q` depends only
/// on the domains of the neighbours of `q`.
pub proof fn lemma_refine_fn_frame(
    c1: Seq<Seq<ColorOption>>,
    c2: Seq<Seq<ColorOption>>,
    width: int,
    height: int,
    q: int,
)
    requires
        c1.len() == c2.len(),
        on_grid(q, width, height),
        c1.len() == width * height,
        forall|r: int|
            0 <= r < 8 ==> (#[trigger] neighbor(q, r, width, height) matches Some(j) ==> c1[j]
                == c2[j]),
    ensures
        refine_fn(c1, width, height, q) == refine_fn(c2, width, height, q),
{
    assert forall|t: Pattern8| fits(c1, width, height, q, t) == fits(c2, width, height, q, t) by {
        assert forall|r: int| 0 <= r < 8 implies crate::propagate::slot_fits(
            c1,
            neighbor(q, r, width, height),
            t.slot(r),
        ) == crate::propagate::slot_fits(c2, neighbor(q, r, width, height), t.slot(r)) by {
            if let Some(j) = neighbor(q, r, width, height) {
                assert(c1[j] == c2[j]);
            }
        }
        if fits(c1, width, height, q, t) {
            assert forall|r: int| 0 <= r < 8 implies #[trigger] crate::propagate::slot_fits(
                c2,
                neighbor(q, r, width, height),
                t.slot(r),
            ) by {
                assert(crate::propagate::slot_fits(c1, neighbor(q, r, width, height), t.slot(r)));
            }
        }
        if fits(c2, width, height, q, t) {
            assert forall|r: int| 0 <= r < 8 implies #[trigger] crate::propagate::slot_fits(
                c1,
                neighbor(q, r, width, height),
                t.slot(r),
            ) by {
                assert(crate::propagate::slot_fits(c2, neighbor(q, r, width, height), t.slot(r)));
            }
        }
    }
    assert(fits_fn(c1, width, height, q) =~= fits_fn(c2, width, height, q));
    assert forall|c: crate::color::Color| supported(c1, width, height, q, c) == supported(
        c2,
        width,
        height,
        q,
        c,
    ) by {
        assert forall|r: int| 0 <= r < 8 implies (match #[trigger] neighbor(q, r, width, height) {
            Some(j) => crate::propagate::offers(c1[j], 7 - r, c),
            None => true,
        }) == (match neighbor(q, r, width, height) {
            Some(j) => crate::propagate::offers(c2[j], 7 - r, c),
            None => true,
        }) by {}
    }
    assert(refine_fn(c1, width, height, q) =~= refine_fn(c2, width, height, q));
}

/// `filter_map` with a function that maps every element to itself changes
/// nothing.
pub proof fn lemma_filter_map_identity(
    s: Seq<ColorOption>,
    f: spec_fn(ColorOption) -> Option<ColorOption>,
)
    requires
        forall|i: int| 0 <= i < s.len() ==> f(#[trigger] s[i]) == Some(s[i]),
    ensures
        s.filter_map(f) == s,
    decreases s.len(),
{
    if s.len() > 0 {
        let rest = s.drop_last();
        assert forall|i: int| 0 <= i < rest.len() implies f(#[trigger] rest[i]) == Some(rest[i]) by {
            assert(rest[i] == s[i]);
        }
        lemma_filter_map_identity(rest, f);
        assert(f(s.last()) == Some(s[s.len() - 1]));
        assert(s.filter_map(f) == rest + seq![s.last()]);
        assert(rest + seq![s.last()] =~= s);
    }
}

pub proof fn lemma_filter_map_len(s: Seq<ColorOption>, f: spec_fn(ColorOption) -> Option<ColorOption>)
    ensures
        s.filter_map(f).len() <= s.len(),
    decreases s.len(),
{
    if s.len() > 0 {
        lemma_filter_map_len(s.drop_last(), f);
    }
}

/// When `filter_map` leaves a sequence as it is, it maps every element to
/// itself.
pub proof fn lemma_filter_map_fixed(s: Seq<ColorOption>, f: spec_fn(ColorOption) -> Option<ColorOption>)
    requires
        s.filter_map(f) == s,
    ensures
        forall|i: int| 0 <= i < s.len() ==> f(#[trigger] s[i]) == Some(s[i]),
    decreases s.len(),
{
    if s.len() > 0 {
        let rest = s.drop_last();
        lemma_filter_map_len(rest, f);
        match f(s.last()) {
            Some(x) => {
                let e = s.filter_map(f);
                assert(e == rest.filter_map(f) + seq![x]);
                assert(e[e.len() - 1] == x);
                assert(rest.filter_map(f) =~= e.drop_last());
                assert(rest.filter_map(f) == rest);
                lemma_filter_map_fixed(rest, f);
                assert forall|i: int| 0 <= i < s.len() implies f(#[trigger] s[i]) == Some(s[i]) by {
                    if i < rest.len() {
                        assert(rest[i] == s[i]);
                    }
                }
            },
            None => {
                assert(s.filter_map(f) == rest.filter_map(f));
            },
        }
    }
}

/// Each element of `s.filter_map(f)` is what `f` made of some element of
/// `s`.
pub proof fn lemma_filter_map_source(
    s: Seq<ColorOption>,
    f: spec_fn(ColorOption) -> Option<ColorOption>,
    k: int,
)
    requires
        0 <= k < s.filter_map(f).len(),
    ensures
        exists|j: int| 0 <= j < s.len() && f(#[trigger] s[j]) == Some(s.filter_map(f)[k]),
    decreases s.len(),
{
    let rest = s.drop_last();
    let e = s.filter_map(f);
    match f(s.last()) {
        Some(x) => {
            if k < rest.filter_map(f).len() {
                assert(e[k] == rest.filter_map(f)[k]);
                lemma_filter_map_source(rest, f, k);
                let j = choose|j: int| 0 <= j < rest.len() && f(#[trigger] rest[j]) == Some(rest.filter_map(f)[k]);
                assert(s[j] == rest[j]);
            } else {
                assert(e[k] == x);
                assert(f(s[s.len() - 1]) == Some(e[k]));
            }
        },
        None => {
            lemma_filter_map_source(rest, f, k);
            let j = choose|j: int| 0 <= j < rest.len() && f(#[trigger] rest[j]) == Some(rest.filter_map(f)[k]);
            assert(s[j] == rest[j]);
        },
    }
}

pub proof fn lemma_filter_twice(s: Seq<Pattern8>, p: spec_fn(Pattern8) -> bool)
    ensures
        s.filter(p).filter(p) == s.filter(p),
    decreases s.len(),
{
    reveal(Seq::filter);
    if s.len() > 0 {
        lemma_filter_twice(s.drop_last(), p);
        let t = s.drop_last().filter(p);
        if p(s.last()) {
            assert(s.filter(p) == t.push(s.last()));
            assert(t.push(s.last()).drop_last() == t);
        }
    }
}

/// One pass of propagation on a cell whose neighbours keep their domains
/// leaves it stable.
pub proof fn lemma_refined_stable(cells: Seq<Seq<ColorOption>>, width: int, height: int, p: int)
    requires
        on_grid(p, width, height),
        cells.len() == width * height,
    ensures
        stable(
            cells.update(p, refined(cells, width, height, p)),
            width,
            height,
            p,
        ),
{
    let c2 = cells.update(p, refined(cells, width, height, p));
    assert forall|r: int| 0 <= r < 8 implies (#[trigger] neighbor(p, r, width, height) matches Some(
        j,
    ) ==> cells[j] == c2[j]) by {
        lemma_neighbor_distinct(p, r, width, height);
        lemma_neighbor_bound(p, r, width, height);
    }
    lemma_refine_fn_frame(cells, c2, width, height, p);
    let f = refine_fn(cells, width, height, p);
    let d = refined(cells, width, height, p);
    assert forall|k: int| 0 <= k < d.len() implies f(#[trigger] d[k]) == Some(d[k]) by {
        lemma_filter_map_source(cells[p], f, k);
        let j = choose|j: int| 0 <= j < cells[p].len() && f(#[trigger] cells[p][j]) == Some(d[k]);
        let o = cells[p][j];
        let ff = fits_fn(cells, width, height, p);
        lemma_filter_twice(o.patterns, ff);
    }
    lemma_filter_map_identity(d, f);
    assert(c2[p] == d);
}

/// Changing only cell `p` keeps every stable cell that is neither `p` nor
/// next to it stable.
pub proof fn lemma_stable_frame(
    cells: Seq<Seq<ColorOption>>,
    width: int,
    height: int,
    p: int,
    d: Seq<ColorOption>,
    q: int,
)
    requires
        on_grid(q, width, height),
        on_grid(p, width, height),
        cells.len() == width * height,
        q != p,
        !adjacent(p, q, width, height),
        stable(cells, width, height, q),
    ensures
        stable(cells.update(p, d), width, height, q),
{
    let c2 = cells.update(p, d);
    assert forall|r: int| 0 <= r < 8 implies (#[trigger] neighbor(q, r, width, height) matches Some(
        j,
    ) ==> cells[j] == c2[j]) by {
        lemma_neighbor_symmetric(q, r, width, height);
        if neighbor(q, r, width, height) == Some(p) {
            assert(neighbor(p, 7 - r, width, height) == Some(q));
        }
    }
    lemma_refine_fn_frame(cells, c2, width, height, q);
}

/// Dropping some options of a stable cell keeps it stable, as long as its
/// neighbours keep their domains.
pub proof fn lemma_stable_subset(
    cells: Seq<Seq<ColorOption>>,
    width: int,
    height: int,
    p: int,
    d: Seq<ColorOption>,
)
    requires
        on_grid(p, width, height),
        cells.len() == width * height,
        refined(cells, width, height, p) == cells[p],
        forall|i: int| 0 <= i < d.len() ==> cells[p].contains(#[trigger] d[i]),
    ensures
        stable(cells.update(p, d), width, height, p),
{
    let c2 = cells.update(p, d);
    assert forall|r: int| 0 <= r < 8 implies (#[trigger] neighbor(p, r, width, height) matches Some(
        j,
    ) ==> cells[j] == c2[j]) by {
        lemma_neighbor_distinct(p, r, width, height);
        lemma_neighbor_bound(p, r, width, height);
    }
    lemma_refine_fn_frame(cells, c2, width, height, p);
    let f = refine_fn(cells, width, height, p);
    lemma_filter_map_fixed(cells[p], f);
    assert forall|i: int| 0 <= i < d.len() implies f(#[trigger] d[i]) == Some(d[i]) by {
        let j = choose|j: int| 0 <= j < cells[p].len() && cells[p][j] == d[i];
    }
    lemma_filter_map_identity(d, f);
}

} // verus!
