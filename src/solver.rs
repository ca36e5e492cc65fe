use vstd::prelude::*;

use crate::consistency::{
    adjacent, consistent, consistent_away_from, lemma_stable_frame, lemma_stable_subset, stable,
};
use crate::image::Image;
use crate::propagate::{lemma_grid_mass_update, propagated_by};
use crate::snapshot::{lemma_without, without, Snapshot, SnapshotStack};
use crate::soundness::{
    is_solution, lemma_decision_split, lemma_empty_cell_no_solution, lemma_steps_sound,
    lemma_steps_sub, lemma_sub_grid_trans, lemma_sub_grid_update, sub_grid,
};
use crate::superposition::{
    all_collapsed, domain_mass, grid_mass, lemma_option_mass, shown_color, ColorOption,
    ImageSuperposition, PixelSuperposition,
};

verus! {

/// Why a run produced no picture.
#[derive(Clone, Copy, Debug, PartialEq, Eq, Structural)]
pub enum SolveError {
    /// Some cell had no option to begin with (an empty catalog, or a grid
    /// that was never seeded).
    EmptyDomain,
    /// A contradiction remained after every decision was undone.
    Exhausted,
}

/// Digit `i` of `s`, read with `pad` past its end.
pub open spec fn digit(s: Seq<nat>, i: int, pad: nat) -> nat {
    if 0 <= i < s.len() {
        s[i]
    } else {
        pad
    }
}

/// The first `n` digits of `s` (padded with `pad`) read as a number in base
/// `base`, the first digit most significant.
pub open spec fn lex_value(s: Seq<nat>, pad: nat, base: nat, n: nat) -> nat
    decreases n,
{
    if n == 0 {
        0
    } else {
        lex_value(s, pad, base, (n - 1) as nat) * base + digit(s, n - 1, pad)
    }
}

pub proof fn lemma_lex_prefix(s: Seq<nat>, t: Seq<nat>, pad: nat, base: nat, n: nat)
    requires
        forall|i: int| 0 <= i < n ==> digit(s, i, pad) == digit(t, i, pad),
    ensures
        lex_value(s, pad, base, n) == lex_value(t, pad, base, n),
    decreases n,
{
    if n > 0 {
        lemma_lex_prefix(s, t, pad, base, (n - 1) as nat);
    }
}

/// Lowering one digit, with all digits before it kept, lowers the value,
/// whatever follows.
pub proof fn lemma_lex_less(s: Seq<nat>, t: Seq<nat>, pad: nat, base: nat, n: nat, j: int)
    requires
        0 <= j < n,
        forall|i: int| 0 <= i < j ==> digit(s, i, pad) == digit(t, i, pad),
        digit(t, j, pad) < digit(s, j, pad),
        forall|i: int| 0 <= i < n ==> digit(t, i, pad) < base,
    ensures
        lex_value(t, pad, base, n) < lex_value(s, pad, base, n),
    decreases n,
{
    let vt = lex_value(t, pad, base, (n - 1) as nat);
    let vs = lex_value(s, pad, base, (n - 1) as nat);
    let dt = digit(t, n - 1, pad);
    let ds = digit(s, n - 1, pad);
    if j == n - 1 {
        lemma_lex_prefix(s, t, pad, base, (n - 1) as nat);
        assert(vt * base + dt < vs * base + ds);
    } else {
        lemma_lex_less(s, t, pad, base, (n - 1) as nat, j);
        assert(vt * base + dt < vs * base + ds) by (nonlinear_arith)
            requires
                vt + 1 <= vs,
                dt < base,
                0 <= ds,
        ;
    }
}

/// The digits of a strictly decreasing sequence that starts at most at `top`
/// number at most `top + 1`.
pub proof fn lemma_decreasing_len(s: Seq<nat>, top: nat)
    requires
        s.len() > 0,
        s[0] <= top,
        forall|i: int, j: int| 0 <= i < j < s.len() ==> s[i] > s[j],
    ensures
        s.len() <= top + 1,
{
    assert forall|i: int| 0 <= i < s.len() implies s[i] + i <= top by {
        lemma_decreasing_step(s, top, i);
    }
    assert(s[s.len() - 1] + s.len() - 1 <= top);
}

proof fn lemma_decreasing_step(s: Seq<nat>, top: nat, i: int)
    requires
        0 <= i < s.len(),
        s[0] <= top,
        forall|a: int, b: int| 0 <= a < b < s.len() ==> s[a] > s[b],
    ensures
        s[i] + i <= top,
    decreases i,
{
    if i > 0 {
        lemma_decreasing_step(s, top, i - 1);
    }
}

/// The masses of the snapshot grids, bottom first, followed by the mass of
/// the live grid.
pub open spec fn mass_chain(stack: Seq<Snapshot>, live: Seq<Seq<ColorOption>>) -> Seq<nat> {
    stack.map_values(|s: Snapshot| grid_mass(s.image_sp.cells())).push(grid_mass(live))
}

/// Each grid on the stack is heavier than the one above it, the live grid
/// is the lightest, and none is heavier than `top`.
pub open spec fn chain_ok(chain: Seq<nat>, top: nat) -> bool {
    &&& chain[0] <= top
    &&& forall|i: int, j: int| 0 <= i < j < chain.len() ==> chain[i] > chain[j]
}

/// The search measure: the chain of masses read as a number with one digit
/// per possible depth; every decision and every undo lowers it.
pub open spec fn search_measure(chain: Seq<nat>, top: nat) -> nat {
    lex_value(chain, top + 1, top + 2, top + 1)
}

/// Two chains that agree before position `j` and where the second is lower
/// at `j`.
proof fn lemma_measure_drops(s: Seq<nat>, t: Seq<nat>, top: nat, j: int)
    requires
        s.len() > 0,
        chain_ok(t, top),
        t.len() > 0,
        0 <= j < t.len(),
        forall|i: int| 0 <= i < j ==> s[i] == t[i],
        j < s.len() ==> t[j] < s[j],
        j < s.len() || j == s.len(),
    ensures
        search_measure(t, top) < search_measure(s, top),
{
    lemma_decreasing_len(t, top);
    assert forall|i: int| 0 <= i < top + 1 implies #[trigger] digit(t, i, top + 1) < top + 2 by {
        if 0 <= i < t.len() {
            assert(t[i] <= t[0]);
        }
    }
    assert forall|i: int| 0 <= i < j implies #[trigger] digit(s, i, top + 1) == digit(t, i, top + 1) by {}
    if j < s.len() {
        assert(digit(t, j, top + 1) < digit(s, j, top + 1));
    } else {
        assert(digit(t, j, top + 1) <= top);
    }
    lemma_lex_less(s, t, top + 1, top + 2, top + 1, j);
}

/// A domain with two options or more weighs more than any one of them.
proof fn lemma_collapse_lighter(d: Seq<ColorOption>, k: int)
    requires
        0 <= k < d.len(),
        d.len() >= 2,
    ensures
        domain_mass(seq![d[k]]) < domain_mass(d),
    decreases d.len(),
{
    assert(seq![d[k]] == Seq::<ColorOption>::empty().push(d[k]));
    crate::superposition::lemma_mass_push(Seq::<ColorOption>::empty(), d[k]);
    crate::superposition::lemma_weight_le_mass(d.drop_last());
    if k < d.len() - 1 {
        lemma_option_mass(d.drop_last(), k);
    }
}

/// Every cell of the grid has at least one option.
pub open spec fn none_empty(cells: Seq<Seq<ColorOption>>) -> bool {
    forall|i: int| 0 <= i < cells.len() ==> #[trigger] cells[i].len() > 0
}

/// The grid that undoing the decision of `s` leads to: its copy of the grid
/// with the option that was taken removed from the decided cell.
pub open spec fn alternative(s: Snapshot) -> Seq<Seq<ColorOption>> {
    let cells = s.image_sp.cells();
    let c = s.collapse_pixel_index as int;
    cells.update(c, without(cells[c], s.collapse_color_index as int))
}

/// Solution `sol` is still within reach: drawn from the live grid, or from
/// the alternative of some decision on the stack.
pub open spec fn covered(
    sol: Seq<Seq<ColorOption>>,
    live: Seq<Seq<ColorOption>>,
    stack: Seq<Snapshot>,
) -> bool {
    sub_grid(sol, live) || exists|k: int|
        0 <= k < stack.len() && #[trigger] sub_grid(sol, alternative(stack[k]))
}

/// Every cell has exactly one option.
pub open spec fn all_decided(cells: Seq<Seq<ColorOption>>) -> bool {
    forall|i: int| 0 <= i < cells.len() ==> #[trigger] cells[i].len() == 1
}

/// Once every cell holds exactly one option the grid is solved for good:
/// no cell is left undecided, so a search finds nothing at once.
pub proof fn lemma_solved_is_final(cells: Seq<Seq<ColorOption>>)
    requires
        forall|i: int| 0 <= i < cells.len() ==> #[trigger] cells[i].len() == 1,
    ensures
        all_collapsed(cells),
{
}

/// Runs the solver on a seeded grid: propagates once over the whole grid,
/// then repeatedly collapses the first undecided cell of lowest `score` and
/// propagates from it, undoing the latest decision (and excluding the option
/// it took) whenever a domain becomes empty.
///
/// A grid whose cells all hold one option is returned as it is. On success
/// every cell holds exactly one colour, drawn from its starting domain, and
/// the picture of those colours is returned. `Exhausted` comes back only
/// when no solution (see [`is_solution`]) is drawn from the starting grid,
/// whatever the draws were.
pub fn solve<F: Fn(&PixelSuperposition) -> u32>(image_sp: &mut ImageSuperposition, score: &F) -> (r:
    Result<Image, SolveError>)
    requires
        old(image_sp).wf(),
        forall|p: &PixelSuperposition| #[trigger] score.requires((p,)),
    ensures
        final(image_sp).wf(),
        final(image_sp).width == old(image_sp).width,
        final(image_sp).height == old(image_sp).height,
        r == Err::<Image, SolveError>(SolveError::EmptyDomain) <==> !none_empty(
            old(image_sp).cells(),
        ),
        all_decided(old(image_sp).cells()) ==> r is Ok,
        r == Err::<Image, SolveError>(SolveError::Exhausted) ==> forall|sol: Seq<Seq<ColorOption>>|
            #[trigger] is_solution(sol, old(image_sp).width as int, old(image_sp).height as int)
                ==> !sub_grid(sol, old(image_sp).cells()),
        r is Ok ==> sub_grid(final(image_sp).cells(), old(image_sp).cells()),
        r is Ok ==> consistent(
            final(image_sp).cells(),
            final(image_sp).width as int,
            final(image_sp).height as int,
        ),
        r is Ok ==> forall|i: int|
            0 <= i < final(image_sp).cells().len() ==> #[trigger] final(image_sp).cells()[i].len()
                == 1,
        r is Ok ==> all_collapsed(final(image_sp).cells()),
        r matches Ok(img) ==> {
            &&& img.wf()
            &&& img.width == old(image_sp).width
            &&& img.height == old(image_sp).height
            &&& forall|i: int|
                0 <= i < img.colors@.len() ==> #[trigger] img.colors@[i]
                    == final(image_sp).cells()[i][0].color
        },
{
    let n = image_sp.pixels.len();
    let mut i: usize = 0;
    while i < n
        invariant
            n == image_sp.pixels@.len(),
            image_sp.wf(),
            image_sp.cells() == old(image_sp).cells(),
            image_sp.width == old(image_sp).width,
            image_sp.height == old(image_sp).height,
            i <= n,
            forall|k: int| 0 <= k < i ==> #[trigger] image_sp.cells()[k].len() > 0,
        decreases n - i,
    {
        proof {
            assert(image_sp.cells()[i as int] == image_sp.pixels@[i as int]@);
        }
        if image_sp.pixels[i].colors.len() == 0 {
            return Err(SolveError::EmptyDomain);
        }
        i = i + 1;
    }
    proof {
        assert(none_empty(old(image_sp).cells()));
    }
    let ghost start = old(image_sp).cells();
    let ghost w = old(image_sp).width as int;
    let ghost h = old(image_sp).height as int;
    let ok = image_sp.propagate_all();
    proof {
        let steps = choose|steps: Seq<int>| #[trigger] propagated_by(start, image_sp.cells(), w, h, steps);
        lemma_steps_sub(start, w, h, steps);
        assert forall|sol: Seq<Seq<ColorOption>>| #[trigger] is_solution(sol, w, h) && sub_grid(sol, start)
            implies sub_grid(sol, image_sp.cells()) by {
            lemma_steps_sound(sol, start, w, h, steps);
        }
        if all_decided(start) {
            assert(image_sp.cells() =~= start);
        }
    }
    if !ok {
        proof {
            let i = choose|i: int| 0 <= i < image_sp.cells().len() && #[trigger] image_sp.cells()[i].len() == 0;
            assert forall|sol: Seq<Seq<ColorOption>>| #[trigger] is_solution(sol, w, h)
                implies !sub_grid(sol, start) by {
                lemma_empty_cell_no_solution(sol, image_sp.cells(), w, h, i);
            }
        }
        return Err(SolveError::Exhausted);
    }
    let ghost top = grid_mass(image_sp.cells());
    let mut stack = SnapshotStack::new();
    proof {
        assert(mass_chain(stack@, image_sp.cells()) =~= seq![top]);
    }
    loop
        invariant
            image_sp.wf(),
            image_sp.width == old(image_sp).width,
            image_sp.height == old(image_sp).height,
            none_empty(image_sp.cells()),
            none_empty(old(image_sp).cells()),
            consistent(image_sp.cells(), image_sp.width as int, image_sp.height as int),
            stack.wf(),
            forall|p: &PixelSuperposition| #[trigger] score.requires((p,)),
            forall|k: int|
                0 <= k < stack@.len() ==> (#[trigger] stack@[k]).image_sp.width == image_sp.width
                    && stack@[k].image_sp.height == image_sp.height,
            chain_ok(mass_chain(stack@, image_sp.cells()), top),
            start == old(image_sp).cells(),
            w == old(image_sp).width,
            h == old(image_sp).height,
            sub_grid(image_sp.cells(), start),
            forall|k: int| 0 <= k < stack@.len() ==> sub_grid(#[trigger] stack@[k].image_sp.cells(), start),
            forall|sol: Seq<Seq<ColorOption>>|
                #[trigger] is_solution(sol, w, h) && sub_grid(sol, start) ==> covered(
                    sol,
                    image_sp.cells(),
                    stack@,
                ),
            all_decided(start) ==> all_collapsed(image_sp.cells()),
        decreases search_measure(mass_chain(stack@, image_sp.cells()), top),
    {
        let ghost chain0 = mass_chain(stack@, image_sp.cells());
        let ghost len0 = stack@.len();
        match image_sp.search(score) {
            None => {
                let img = Image::from(image_sp);
                proof {
                    assert forall|i: int| 0 <= i < img.colors@.len() implies #[trigger] img.colors@[i]
                        == image_sp.cells()[i][0].color by {
                        assert(image_sp.cells()[i].len() > 0);
                        assert(image_sp.cells()[i].len() <= 1);
                        assert(img.colors@[i] == shown_color(image_sp.cells()[i]));
                    }
                    assert forall|i: int| 0 <= i < image_sp.cells().len() implies #[trigger] image_sp.cells()[i].len() == 1 by {
                        assert(image_sp.cells()[i].len() > 0);
                        assert(image_sp.cells()[i].len() <= 1);
                    }
                }
                return Ok(img);
            },
            Some(pixel_index) => {
                let copy = image_sp.duplicate();
                let ghost before = image_sp.cells();
                proof {
                    assert(image_sp.pixels@[pixel_index as int].wf());
                    assert(before[pixel_index as int] == image_sp.pixels@[pixel_index as int]@);
                    assert(!all_decided(start));
                }
                let color_index = image_sp.collapse(pixel_index);
                proof {
                    lemma_collapse_lighter(before[pixel_index as int], color_index as int);
                    lemma_grid_mass_update(
                        before,
                        pixel_index as int,
                        seq![before[pixel_index as int][color_index as int]],
                    );
                    assert forall|k: int| 0 <= k < image_sp.cells().len() implies #[trigger] image_sp.cells()[k].len() > 0 by {
                        if k != pixel_index {
                            assert(image_sp.cells()[k] == before[k]);
                        }
                    }
                    let w = image_sp.width as int;
                    let h = image_sp.height as int;
                    assert forall|q: int| 0 <= q < image_sp.cells().len() && !adjacent(pixel_index as int, q, w, h)
                        implies #[trigger] stable(image_sp.cells(), w, h, q) by {
                        if q != pixel_index {
                            assert(stable(before, w, h, q));
                            lemma_stable_frame(
                                before,
                                w,
                                h,
                                pixel_index as int,
                                seq![before[pixel_index as int][color_index as int]],
                                q,
                            );
                        }
                    }
                }
                let snapshot = Snapshot {
                    image_sp: copy,
                    collapse_pixel_index: pixel_index,
                    collapse_color_index: color_index,
                };
                let ghost stack0 = stack@;
                let ghost snap = snapshot;
                stack.push(snapshot);
                proof {
                    let c = pixel_index as int;
                    let k = color_index as int;
                    let live = image_sp.cells();
                    assert(stack@[len0 as int] == snap);
                    assert(alternative(snap) == before.update(c, without(before[c], k)));
                    assert forall|sol: Seq<Seq<ColorOption>>| #[trigger] is_solution(sol, w, h) && sub_grid(sol, start)
                        implies covered(sol, live, stack@) by {
                        assert(covered(sol, before, stack0));
                        if sub_grid(sol, before) {
                            lemma_decision_split(sol, before, w, h, c, k);
                            if !sub_grid(sol, live) {
                                assert(sub_grid(sol, alternative(stack@[len0 as int])));
                            }
                        } else {
                            let j = choose|j: int| 0 <= j < stack0.len() && #[trigger] sub_grid(sol, alternative(stack0[j]));
                            assert(stack@[j] == stack0[j]);
                        }
                    }
                    assert(crate::soundness::option_covers(before[c][k], before[c][k]));
                    lemma_sub_grid_update(before, c, seq![before[c][k]]);
                    lemma_sub_grid_trans(live, before, start);
                    assert forall|j: int| 0 <= j < stack@.len() implies sub_grid(#[trigger] stack@[j].image_sp.cells(), start) by {
                        if j < len0 {
                            assert(stack@[j] == stack0[j]);
                        }
                    }
                }
                proof {
                    let c1 = mass_chain(stack@, image_sp.cells());
                    assert(c1 =~= chain0.drop_last().push(chain0.last()).push(grid_mass(image_sp.cells())));
                    assert(chain0.drop_last().push(chain0.last()) == chain0);
                    assert(chain_ok(c1, top));
                    lemma_measure_drops(chain0, c1, top, len0 as int + 1);
                }
                let mut pi = pixel_index;
                loop
                    invariant
                        image_sp.wf(),
                        image_sp.width == old(image_sp).width,
                        image_sp.height == old(image_sp).height,
                        none_empty(image_sp.cells()),
                        none_empty(old(image_sp).cells()),
                        consistent_away_from(
                            image_sp.cells(),
                            image_sp.width as int,
                            image_sp.height as int,
                            pi as int,
                        ),
                        stack.wf(),
                        pi < image_sp.pixels@.len(),
                        forall|p: &PixelSuperposition| #[trigger] score.requires((p,)),
                        forall|k: int|
                            0 <= k < stack@.len() ==> (#[trigger] stack@[k]).image_sp.width
                                == image_sp.width && stack@[k].image_sp.height == image_sp.height,
                        chain_ok(mass_chain(stack@, image_sp.cells()), top),
                        search_measure(mass_chain(stack@, image_sp.cells()), top) < search_measure(
                            chain0,
                            top,
                        ),
                        start == old(image_sp).cells(),
                        w == old(image_sp).width,
                        h == old(image_sp).height,
                        !all_decided(start),
                        sub_grid(image_sp.cells(), start),
                        forall|k: int| 0 <= k < stack@.len() ==> sub_grid(#[trigger] stack@[k].image_sp.cells(), start),
                        forall|sol: Seq<Seq<ColorOption>>|
                            #[trigger] is_solution(sol, w, h) && sub_grid(sol, start) ==> covered(
                                sol,
                                image_sp.cells(),
                                stack@,
                            ),
                    ensures
                        consistent(image_sp.cells(), image_sp.width as int, image_sp.height as int),
                    decreases search_measure(mass_chain(stack@, image_sp.cells()), top),
                {
                    let ghost chain1 = mass_chain(stack@, image_sp.cells());
                    let ghost len1 = stack@.len();
                    let ghost live1 = image_sp.cells();
                    let ok = image_sp.propagate(pi);
                    proof {
                        let steps = choose|steps: Seq<int>| #[trigger] propagated_by(live1, image_sp.cells(), w, h, steps);
                        lemma_steps_sub(live1, w, h, steps);
                        lemma_sub_grid_trans(image_sp.cells(), live1, start);
                        assert forall|sol: Seq<Seq<ColorOption>>| #[trigger] is_solution(sol, w, h) && sub_grid(sol, live1)
                            implies sub_grid(sol, image_sp.cells()) by {
                            lemma_steps_sound(sol, live1, w, h, steps);
                        }
                        assert forall|sol: Seq<Seq<ColorOption>>| #[trigger] is_solution(sol, w, h) && sub_grid(sol, start)
                            implies covered(sol, image_sp.cells(), stack@) by {
                            assert(covered(sol, live1, stack@));
                        }
                        if !ok {
                            let e = choose|e: int| 0 <= e < image_sp.cells().len() && #[trigger] image_sp.cells()[e].len() == 0;
                            assert forall|sol: Seq<Seq<ColorOption>>| #[trigger] is_solution(sol, w, h)
                                implies !sub_grid(sol, image_sp.cells()) by {
                                lemma_empty_cell_no_solution(sol, image_sp.cells(), w, h, e);
                            }
                        }
                    }
                    if ok {
                        proof {
                            let c2 = mass_chain(stack@, image_sp.cells());
                            if grid_mass(image_sp.cells()) < grid_mass(live1) {
                                assert(chain_ok(c2, top)) by {
                                    assert(c2 =~= chain1.drop_last().push(grid_mass(image_sp.cells())));
                                    assert(chain1.last() == grid_mass(live1));
                                    assert forall|a: int, b: int| 0 <= a < b < c2.len() implies c2[a] > c2[b] by {
                                        assert(c2[a] == chain1[a]);
                                        if b < c2.len() - 1 {
                                            assert(c2[b] == chain1[b]);
                                        } else {
                                            assert(c2[b] < chain1[b]);
                                        }
                                    }
                                    if c2.len() > 1 {
                                        assert(c2[0] == chain1[0]);
                                    }
                                }
                                lemma_measure_drops(chain1, c2, top, len1 as int);
                            } else {
                                assert(c2 =~= chain1);
                            }
                        }
                        break;
                    }
                    let ghost stack1 = stack@;
                    let ghost live1_after = image_sp.cells();
                    match stack.pop() {
                        None => {
                            proof {
                                assert forall|sol: Seq<Seq<ColorOption>>| #[trigger] is_solution(sol, w, h)
                                    implies !sub_grid(sol, start) by {
                                    if sub_grid(sol, start) {
                                        assert(covered(sol, image_sp.cells(), stack1));
                                    }
                                }
                            }
                            return Err(SolveError::Exhausted);
                        },
                        Some(snapshot) => {
                            pi = snapshot.collapse_pixel_index;
                            *image_sp = snapshot.image_sp;
                            proof {
                                let top = stack1.last();
                                let sc = top.image_sp.cells();
                                let c = pi as int;
                                let w = image_sp.width as int;
                                let h = image_sp.height as int;
                                assert(stack1[len1 - 1] == top);
                                assert(top.valid());
                                let d = sc[c];
                                let dw = without(d, top.collapse_color_index as int);
                                lemma_without(d, top.collapse_color_index as int);
                                assert(stable(sc, w, h, c));
                                assert forall|i: int| 0 <= i < dw.len() implies d.contains(#[trigger] dw[i]) by {
                                    if dw[i] == d[i] {
                                        assert(d[i] == dw[i]);
                                    } else {
                                        assert(d[d.len() - 1] == dw[i]);
                                    }
                                }
                                lemma_stable_subset(sc, w, h, c, dw);
                                assert(alternative(top) == image_sp.cells());
                                assert forall|sol: Seq<Seq<ColorOption>>| #[trigger] is_solution(sol, w, h) && sub_grid(sol, start)
                                    implies covered(sol, image_sp.cells(), stack@) by {
                                    assert(covered(sol, live1, stack1));
                                    assert(!sub_grid(sol, live1_after));
                                    let j = choose|j: int| 0 <= j < stack1.len() && #[trigger] sub_grid(sol, alternative(stack1[j]));
                                    if j < stack1.len() - 1 {
                                        assert(stack@[j] == stack1[j]);
                                    }
                                }
                                assert forall|i: int| 0 <= i < dw.len() implies #[trigger] crate::soundness::option_in(dw[i], sc[c]) by {
                                    let m = choose|m: int| 0 <= m < d.len() && d[m] == dw[i];
                                    assert(crate::soundness::option_covers(d[m], dw[i]));
                                }
                                lemma_sub_grid_update(sc, c, dw);
                                assert(sub_grid(sc, start));
                                lemma_sub_grid_trans(image_sp.cells(), sc, start);
                                assert forall|j: int| 0 <= j < stack@.len() implies sub_grid(#[trigger] stack@[j].image_sp.cells(), start) by {
                                    assert(stack@[j] == stack1[j]);
                                }
                                assert forall|q: int| 0 <= q < image_sp.cells().len() && !adjacent(c, q, w, h)
                                    implies #[trigger] stable(image_sp.cells(), w, h, q) by {
                                    if q != c {
                                        assert(stable(sc, w, h, q));
                                        lemma_stable_frame(sc, w, h, c, dw, q);
                                    }
                                }
                            }
                            proof {
                                let c2 = mass_chain(stack@, image_sp.cells());
                                assert(stack@ == stack1.drop_last());
                                assert(c2 =~= chain1.take(len1 - 1).push(grid_mass(image_sp.cells())));
                                assert(chain1[len1 - 1] == grid_mass(stack1.last().image_sp.cells()));
                                assert(chain_ok(c2, top)) by {
                                    assert forall|a: int, b: int| 0 <= a < b < c2.len() implies c2[a] > c2[b] by {
                                        if b == c2.len() - 1 {
                                            assert(chain1[a] >= chain1[len1 - 1]);
                                        } else {
                                            assert(c2[a] == chain1[a]);
                                            assert(c2[b] == chain1[b]);
                                        }
                                    }
                                    if c2.len() > 1 {
                                        assert(c2[0] == chain1[0]);
                                    } else {
                                        assert(chain1[0] >= chain1[len1 - 1]);
                                    }
                                }
                                lemma_measure_drops(chain1, c2, top, len1 - 1);
                                assert(stack1.last().valid());
                                assert(stack1[len1 - 1].image_sp.width == old(image_sp).width);
                            }
                        },
                    }
                }
            },
        }
    }
}

} // verus!
