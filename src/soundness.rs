use vstd::prelude::*;

use crate::consistency::lemma_filter_map_fixed;
use crate::pattern8::{lemma_neighbor_bound, neighbor, on_grid, Pattern8};
use crate::propagate::{
    fits, fits_fn, offers, refine_fn, refine_steps, refined, slot_fits, supported,
};
use crate::snapshot::without;
use crate::superposition::{colors_unique, ColorOption};

verus! {

/// `big` has the colour of `small` and every pattern of it.
pub open spec fn option_covers(big: ColorOption, small: ColorOption) -> bool {
    &&& big.color == small.color
    &&& forall|t: Pattern8| small.patterns.contains(t) ==> #[trigger] big.patterns.contains(t)
}

/// Some option of `d` covers `o`.
pub open spec fn option_in(o: ColorOption, d: Seq<ColorOption>) -> bool {
    exists|k: int| 0 <= k < d.len() && #[trigger] option_covers(d[k], o)
}

/// Grid `a` is drawn from grid `b`: cell by cell, every option of `a` is
/// covered by an option of `b` of the same colour.
pub open spec fn sub_grid(a: Seq<Seq<ColorOption>>, b: Seq<Seq<ColorOption>>) -> bool {
    &&& a.len() == b.len()
    &&& forall|i: int, j: int|
        0 <= i < a.len() && 0 <= j < a[i].len() ==> #[trigger] option_in(a[i][j], b[i])
}

/// A solution: one option per cell, and one more pass of propagation
/// changes no cell, so every option is backed by its neighbours and each
/// of its patterns agrees with them.
pub open spec fn is_solution(sol: Seq<Seq<ColorOption>>, width: int, height: int) -> bool {
    &&& sol.len() == width * height
    &&& forall|i: int|
        0 <= i < sol.len() ==> sol[i].len() == 1 && #[trigger] refined(sol, width, height, i)
            == sol[i]
}

pub proof fn lemma_sub_grid_refl(a: Seq<Seq<ColorOption>>)
    ensures
        sub_grid(a, a),
{
    assert forall|i: int, j: int| 0 <= i < a.len() && 0 <= j < a[i].len() implies #[trigger] option_in(
        a[i][j],
        a[i],
    ) by {
        assert(option_covers(a[i][j], a[i][j]));
    }
}

pub proof fn lemma_sub_grid_trans(
    a: Seq<Seq<ColorOption>>,
    b: Seq<Seq<ColorOption>>,
    c: Seq<Seq<ColorOption>>,
)
    requires
        sub_grid(a, b),
        sub_grid(b, c),
    ensures
        sub_grid(a, c),
{
    assert forall|i: int, j: int| 0 <= i < a.len() && 0 <= j < a[i].len() implies #[trigger] option_in(
        a[i][j],
        c[i],
    ) by {
        assert(option_in(a[i][j], b[i]));
        let k = choose|k: int| 0 <= k < b[i].len() && #[trigger] option_covers(b[i][k], a[i][j]);
        assert(option_in(b[i][k], c[i]));
        let m = choose|m: int| 0 <= m < c[i].len() && #[trigger] option_covers(c[i][m], b[i][k]);
        assert(option_covers(c[i][m], a[i][j]));
    }
}

/// Changing one cell to a domain drawn from its old one keeps the grid
/// drawn from the old grid.
pub proof fn lemma_sub_grid_update(cells: Seq<Seq<ColorOption>>, p: int, d: Seq<ColorOption>)
    requires
        0 <= p < cells.len(),
        forall|j: int| 0 <= j < d.len() ==> #[trigger] option_in(d[j], cells[p]),
    ensures
        sub_grid(cells.update(p, d), cells),
{
    let a = cells.update(p, d);
    assert forall|i: int, j: int| 0 <= i < a.len() && 0 <= j < a[i].len() implies #[trigger] option_in(
        a[i][j],
        cells[i],
    ) by {
        if i != p {
            assert(option_covers(cells[i][j], a[i][j]));
        }
    }
}

/// Whatever `f` makes of an element, `s.filter_map(f)` holds.
pub proof fn lemma_filter_map_keeps(
    s: Seq<ColorOption>,
    f: spec_fn(ColorOption) -> Option<ColorOption>,
    k: int,
)
    requires
        0 <= k < s.len(),
        f(s[k]) is Some,
    ensures
        s.filter_map(f).contains(f(s[k])->Some_0),
    decreases s.len(),
{
    let rest = s.drop_last();
    let e = s.filter_map(f);
    if k == s.len() - 1 {
        assert(e == rest.filter_map(f) + seq![f(s.last())->Some_0]);
        assert(e[e.len() - 1] == f(s[k])->Some_0);
    } else {
        assert(rest[k] == s[k]);
        lemma_filter_map_keeps(rest, f, k);
        let m = choose|m: int|
            0 <= m < rest.filter_map(f).len() && rest.filter_map(f)[m] == f(s[k])->Some_0;
        match f(s.last()) {
            Some(x) => {
                assert(e == rest.filter_map(f) + seq![x]);
                assert(e[m] == f(s[k])->Some_0);
            },
            None => {},
        }
    }
}

/// One pass of propagation keeps the cell's options drawn from its old ones.
pub proof fn lemma_refined_sub(cells: Seq<Seq<ColorOption>>, width: int, height: int, p: int)
    requires
        0 <= p < cells.len(),
    ensures
        sub_grid(cells.update(p, refined(cells, width, height, p)), cells),
{
    let f = refine_fn(cells, width, height, p);
    let r = refined(cells, width, height, p);
    assert forall|j: int| 0 <= j < r.len() implies #[trigger] option_in(r[j], cells[p]) by {
        crate::consistency::lemma_filter_map_source(cells[p], f, j);
        let k = choose|k: int| 0 <= k < cells[p].len() && f(#[trigger] cells[p][k]) == Some(r[j]);
        let o = cells[p][k];
        let ff = fits_fn(cells, width, height, p);
        assert forall|t: Pattern8| r[j].patterns.contains(t) implies #[trigger] o.patterns.contains(
            t,
        ) by {
            o.patterns.lemma_filter_contains_rev(ff, t);
        }
        assert(option_covers(cells[p][k], r[j]));
    }
    lemma_sub_grid_update(cells, p, r);
}

/// Passes of propagation keep the grid drawn from where it started.
pub proof fn lemma_steps_sub(cells: Seq<Seq<ColorOption>>, width: int, height: int, steps: Seq<int>)
    requires
        forall|k: int| 0 <= k < steps.len() ==> 0 <= #[trigger] steps[k] < cells.len(),
    ensures
        sub_grid(refine_steps(cells, width, height, steps), cells),
    decreases steps.len(),
{
    if steps.len() == 0 {
        lemma_sub_grid_refl(cells);
    } else {
        let prev_steps = steps.drop_last();
        assert forall|k: int| 0 <= k < prev_steps.len() implies 0 <= #[trigger] prev_steps[k]
            < cells.len() by {
            assert(prev_steps[k] == steps[k]);
        }
        lemma_steps_sub(cells, width, height, prev_steps);
        let prev = refine_steps(cells, width, height, prev_steps);
        assert(steps[steps.len() - 1] == steps.last());
        lemma_refined_sub(prev, width, height, steps.last());
        lemma_sub_grid_trans(refine_steps(cells, width, height, steps), prev, cells);
    }
}

/// What a solution's option at cell `p` is made of: its colour is backed in
/// every direction and all its patterns fit.
proof fn lemma_solution_cell(sol: Seq<Seq<ColorOption>>, width: int, height: int, p: int)
    requires
        is_solution(sol, width, height),
        0 <= p < sol.len(),
    ensures
        sol[p].len() == 1,
        supported(sol, width, height, p, sol[p][0].color),
        sol[p][0].patterns.len() > 0,
        forall|t: Pattern8| sol[p][0].patterns.contains(t) ==> #[trigger] fits(
            sol,
            width,
            height,
            p,
            t,
        ),
{
    assert(refined(sol, width, height, p) == sol[p]);
    let f = refine_fn(sol, width, height, p);
    lemma_filter_map_fixed(sol[p], f);
    let o = sol[p][0];
    assert(f(sol[p][0]) == Some(o));
    let ff = fits_fn(sol, width, height, p);
    assert(o.patterns.filter(ff) == o.patterns);
    assert forall|t: Pattern8| o.patterns.contains(t) implies #[trigger] fits(
        sol,
        width,
        height,
        p,
        t,
    ) by {
        let i = choose|i: int| 0 <= i < o.patterns.len() && o.patterns[i] == t;
        o.patterns.lemma_filter_pred(ff, i);
    }
}

/// Propagation never removes what a solution needs: a solution drawn from a
/// grid is still drawn from it after one pass of propagation on any cell.
pub proof fn lemma_refine_sound(
    sol: Seq<Seq<ColorOption>>,
    cells: Seq<Seq<ColorOption>>,
    width: int,
    height: int,
    p: int,
)
    requires
        is_solution(sol, width, height),
        sub_grid(sol, cells),
        0 <= p < cells.len(),
        width <= i32::MAX,
        height <= i32::MAX,
        width * height <= usize::MAX,
    ensures
        sub_grid(sol, cells.update(p, refined(cells, width, height, p))),
{
    let c2 = cells.update(p, refined(cells, width, height, p));
    lemma_solution_cell(sol, width, height, p);
    let o2 = sol[p][0];
    let c = o2.color;
    assert(option_in(sol[p][0], cells[p]));
    let k = choose|k: int| 0 <= k < cells[p].len() && #[trigger] option_covers(cells[p][k], o2);
    let o = cells[p][k];
    assert(on_grid(p, width, height));
    // the colour stays backed
    assert forall|r: int| 0 <= r < 8 implies match #[trigger] neighbor(p, r, width, height) {
        Some(q) => offers(cells[q], 7 - r, c),
        None => true,
    } by {
        lemma_neighbor_bound(p, r, width, height);
        if let Some(q) = neighbor(p, r, width, height) {
            assert(offers(sol[q], 7 - r, c));
            let (k2, t) = choose|k2: int, t: int|
                0 <= k2 < sol[q].len() && 0 <= t < sol[q][k2].patterns.len()
                    && #[trigger] sol[q][k2].patterns[t].slot(7 - r) == Some(c);
            assert(option_in(sol[q][k2], cells[q]));
            let k3 = choose|k3: int| 0 <= k3 < cells[q].len() && #[trigger] option_covers(cells[q][k3], sol[q][k2]);
            assert(sol[q][k2].patterns.contains(sol[q][k2].patterns[t]));
            assert(cells[q][k3].patterns.contains(sol[q][k2].patterns[t]));
            let t2 = choose|t2: int| 0 <= t2 < cells[q][k3].patterns.len() && cells[q][k3].patterns[t2] == sol[q][k2].patterns[t];
            assert(cells[q][k3].patterns[t2].slot(7 - r) == Some(c));
        }
    }
    assert(supported(cells, width, height, p, c));
    // every pattern of the solution's option still fits
    let ff = fits_fn(cells, width, height, p);
    let kept = o.patterns.filter(ff);
    assert forall|t: Pattern8| o2.patterns.contains(t) implies #[trigger] kept.contains(t) by {
        assert(fits(sol, width, height, p, t));
        assert forall|r: int| 0 <= r < 8 implies #[trigger] slot_fits(
            cells,
            neighbor(p, r, width, height),
            t.slot(r),
        ) by {
            lemma_neighbor_bound(p, r, width, height);
            assert(slot_fits(sol, neighbor(p, r, width, height), t.slot(r)));
            if let (Some(q), Some(col)) = (neighbor(p, r, width, height), t.slot(r)) {
                let m = choose|m: int| 0 <= m < sol[q].len() && #[trigger] sol[q][m].color == col;
                assert(option_in(sol[q][m], cells[q]));
                let k3 = choose|k3: int| 0 <= k3 < cells[q].len() && #[trigger] option_covers(cells[q][k3], sol[q][m]);
                assert(cells[q][k3].color == col);
            }
        }
        assert(fits(cells, width, height, p, t));
        assert(o.patterns.contains(t));
        let i = choose|i: int| 0 <= i < o.patterns.len() && o.patterns[i] == t;
        o.patterns.lemma_filter_contains(ff, i);
    }
    assert(o2.patterns.contains(o2.patterns[0]));
    assert(kept.contains(o2.patterns[0]));
    let f = refine_fn(cells, width, height, p);
    assert(f(cells[p][k]) == Some(ColorOption { color: c, patterns: kept }));
    lemma_filter_map_keeps(cells[p], f, k);
    let r = refined(cells, width, height, p);
    let m = choose|m: int| 0 <= m < r.len() && r[m] == ColorOption { color: c, patterns: kept };
    assert(option_covers(r[m], o2));
    assert forall|i: int, j: int| 0 <= i < sol.len() && 0 <= j < sol[i].len() implies #[trigger] option_in(
        sol[i][j],
        c2[i],
    ) by {
        if i == p {
            assert(option_in(sol[i][j], c2[i]));
        } else {
            assert(option_in(sol[i][j], cells[i]));
        }
    }
}

/// A solution drawn from a grid is still drawn from it after any number of
/// passes of propagation.
pub proof fn lemma_steps_sound(
    sol: Seq<Seq<ColorOption>>,
    cells: Seq<Seq<ColorOption>>,
    width: int,
    height: int,
    steps: Seq<int>,
)
    requires
        is_solution(sol, width, height),
        sub_grid(sol, cells),
        forall|k: int| 0 <= k < steps.len() ==> 0 <= #[trigger] steps[k] < cells.len(),
        width <= i32::MAX,
        height <= i32::MAX,
        width * height <= usize::MAX,
    ensures
        sub_grid(sol, refine_steps(cells, width, height, steps)),
    decreases steps.len(),
{
    if steps.len() > 0 {
        let prev_steps = steps.drop_last();
        assert forall|k: int| 0 <= k < prev_steps.len() implies 0 <= #[trigger] prev_steps[k]
            < cells.len() by {
            assert(prev_steps[k] == steps[k]);
        }
        lemma_steps_sound(sol, cells, width, height, prev_steps);
        let prev = refine_steps(cells, width, height, prev_steps);
        assert(steps[steps.len() - 1] == steps.last());
        lemma_refine_sound(sol, prev, width, height, steps.last());
    }
}

/// No solution is drawn from a grid with an empty cell.
pub proof fn lemma_empty_cell_no_solution(
    sol: Seq<Seq<ColorOption>>,
    cells: Seq<Seq<ColorOption>>,
    width: int,
    height: int,
    i: int,
)
    requires
        0 <= i < cells.len(),
        cells[i].len() == 0,
        is_solution(sol, width, height),
    ensures
        !sub_grid(sol, cells),
{
    if sub_grid(sol, cells) {
        assert(refined(sol, width, height, i) == sol[i]);
        assert(option_in(sol[i][0], cells[i]));
    }
}

/// Deciding cell `c` for option `k` splits the solutions drawn from a grid:
/// each is drawn either from the grid with `c` decided, or from the grid
/// with option `k` removed at `c`.
pub proof fn lemma_decision_split(
    sol: Seq<Seq<ColorOption>>,
    cells: Seq<Seq<ColorOption>>,
    width: int,
    height: int,
    c: int,
    k: int,
)
    requires
        is_solution(sol, width, height),
        sub_grid(sol, cells),
        0 <= c < cells.len(),
        0 <= k < cells[c].len(),
        colors_unique(cells[c]),
    ensures
        sub_grid(sol, cells.update(c, seq![cells[c][k]])) || sub_grid(
            sol,
            cells.update(c, without(cells[c], k)),
        ),
{
    assert(refined(sol, width, height, c) == sol[c]);
    let o2 = sol[c][0];
    assert(option_in(o2, cells[c]));
    let j = choose|j: int| 0 <= j < cells[c].len() && #[trigger] option_covers(cells[c][j], o2);
    let d = if j == k {
        seq![cells[c][k]]
    } else {
        without(cells[c], k)
    };
    if j == k {
        assert(option_covers(d[0], o2));
    } else {
        crate::snapshot::lemma_without(cells[c], k);
        if j == cells[c].len() - 1 {
            assert(d[k] == cells[c][j]);
            assert(option_covers(d[k], o2));
        } else {
            assert(d[j] == cells[c][j]);
            assert(option_covers(d[j], o2));
        }
    }
    let c2 = cells.update(c, d);
    assert forall|i: int, m: int| 0 <= i < sol.len() && 0 <= m < sol[i].len() implies #[trigger] option_in(
        sol[i][m],
        c2[i],
    ) by {
        if i != c {
            assert(option_in(sol[i][m], cells[i]));
        } else {
            assert(refined(sol, width, height, i) == sol[i]);
        }
    }
}

} // verus!
