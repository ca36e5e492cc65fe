use vstd::prelude::*;

use crate::consistency::consistent;
use crate::propagate::lemma_grid_mass_update;
use crate::superposition::{
    colors_unique, domain_mass, grid_mass, lemma_mass_update, ColorOption, ImageSuperposition,
};

verus! {

/// The domain `d` without option `k`: the last option takes its place.
pub open spec fn without(d: Seq<ColorOption>, k: int) -> Seq<ColorOption> {
    d.update(k, d.last()).drop_last()
}

/// A copy of the grid taken just before cell `collapse_pixel_index` was
/// collapsed to its option `collapse_color_index`.
pub struct Snapshot {
    pub image_sp: ImageSuperposition,
    pub collapse_pixel_index: usize,
    pub collapse_color_index: usize,
}

impl Snapshot {
    /// The grid is well formed and arc-consistent with no empty domain, and
    /// the recorded cell had a choice to make: at least two options, one of
    /// which was taken.
    pub open spec fn valid(&self) -> bool {
        let cells = self.image_sp.cells();
        &&& self.image_sp.wf()
        &&& consistent(cells, self.image_sp.width as int, self.image_sp.height as int)
        &&& forall|i: int| 0 <= i < cells.len() ==> #[trigger] cells[i].len() > 0
        &&& self.collapse_pixel_index < cells.len()
        &&& self.collapse_color_index < cells[self.collapse_pixel_index as int].len()
        &&& cells[self.collapse_pixel_index as int].len() >= 2
    }
}

/// The decisions taken so far, latest on top.
pub struct SnapshotStack {
    stack: Vec<Snapshot>,
}

impl View for SnapshotStack {
    type V = Seq<Snapshot>;

    closed spec fn view(&self) -> Seq<Snapshot> {
        self.stack@
    }
}

pub proof fn lemma_without(d: Seq<ColorOption>, k: int)
    requires
        0 <= k < d.len(),
        colors_unique(d),
    ensures
        colors_unique(without(d, k)),
        domain_mass(without(d, k)) < domain_mass(d),
        without(d, k).len() == d.len() - 1,
        forall|i: int|
            0 <= i < without(d, k).len() ==> #[trigger] without(d, k)[i] == d[i] || (i == k
                && without(d, k)[i] == d.last()),
{
    let u = d.update(k, d.last());
    lemma_mass_update(d, k, d.last());
    assert(u.drop_last().push(u.last()) == u);
    crate::superposition::lemma_mass_push(u.drop_last(), u.last());
}

impl SnapshotStack {
    pub open spec fn wf(&self) -> bool {
        forall|i: int| 0 <= i < self@.len() ==> (#[trigger] self@[i]).valid()
    }

    pub fn new() -> (r: Self)
        ensures
            r@ == Seq::<Snapshot>::empty(),
            r.wf(),
    {
        SnapshotStack { stack: Vec::new() }
    }

    pub fn push(&mut self, snapshot: Snapshot)
        requires
            old(self).wf(),
            snapshot.valid(),
        ensures
            final(self).wf(),
            final(self)@ == old(self)@.push(snapshot),
    {
        self.stack.push(snapshot);
    }

    /// Takes the latest snapshot off and returns it with the option that was
    /// taken removed from the recorded cell, so that a retry cannot take it
    /// again; `None` when no decision is left to undo.
    pub fn pop(&mut self) -> (r: Option<Snapshot>)
        requires
            old(self).wf(),
        ensures
            final(self).wf(),
            old(self)@.len() == 0 ==> r is None && final(self)@ == old(self)@,
            old(self)@.len() > 0 ==> final(self)@ == old(self)@.drop_last() && r is Some,
            r matches Some(s) ==> {
                let top = old(self)@.last();
                let c = top.collapse_pixel_index as int;
                &&& s.collapse_pixel_index == top.collapse_pixel_index
                &&& s.collapse_color_index == top.collapse_color_index
                &&& s.image_sp.width == top.image_sp.width
                &&& s.image_sp.height == top.image_sp.height
                &&& s.image_sp.rng == top.image_sp.rng
                &&& s.image_sp.cells() == top.image_sp.cells().update(
                    c,
                    without(top.image_sp.cells()[c], top.collapse_color_index as int),
                )
                &&& s.image_sp.wf()
                &&& forall|i: int|
                    0 <= i < s.image_sp.cells().len() ==> #[trigger] s.image_sp.cells()[i].len()
                        > 0
                &&& grid_mass(s.image_sp.cells()) < grid_mass(top.image_sp.cells())
            },
    {
        match self.stack.pop() {
            Some(mut snapshot) => {
                let ghost top = snapshot;
                proof {
                    assert(old(self)@[old(self)@.len() - 1] == top);
                }
                let pixel_index = snapshot.collapse_pixel_index;
                let color_index = snapshot.collapse_color_index;
                let ghost cells = top.image_sp.cells();
                let ghost d = cells[pixel_index as int];
                proof {
                    assert(top.valid());
                    assert(d == top.image_sp.pixels@[pixel_index as int]@);
                    assert(top.image_sp.pixels@[pixel_index as int].wf());
                }
                let _ = snapshot.image_sp.pixels[pixel_index].colors.swap_remove(color_index);
                proof {
                    let cell = snapshot.image_sp.pixels@[pixel_index as int];
                    let old_cell = top.image_sp.pixels@[pixel_index as int];
                    assert(cell.colors@ == old_cell.colors@.update(
                        color_index as int,
                        old_cell.colors@.last(),
                    ).drop_last());
                    assert(cell@ =~= without(d, color_index as int));
                    lemma_without(d, color_index as int);
                    assert(snapshot.image_sp.pixels@ == top.image_sp.pixels@.update(
                        pixel_index as int,
                        cell,
                    ));
                    assert(snapshot.image_sp.cells() =~= cells.update(
                        pixel_index as int,
                        without(d, color_index as int),
                    ));
                    assert forall|k: int| 0 <= k < cell.colors@.len() implies (
                    #[trigger] cell.colors@[k]).wf() by {
                        if k == color_index {
                            assert(cell.colors@[k] == old_cell.colors@[old_cell.colors@.len() - 1]);
                        } else {
                            assert(cell.colors@[k] == old_cell.colors@[k]);
                        }
                    }
                    assert(cell.wf());
                    lemma_grid_mass_update(
                        cells,
                        pixel_index as int,
                        without(d, color_index as int),
                    );
                    let sc = snapshot.image_sp.cells();
                    assert forall|i: int| 0 <= i < sc.len() implies #[trigger] sc[i].len() > 0 by {
                        if i != pixel_index {
                            assert(sc[i] == cells[i]);
                        }
                    }
                    assert forall|i: int| 0 <= i < snapshot.image_sp.pixels@.len() implies (
                    #[trigger] snapshot.image_sp.pixels@[i]).wf() by {
                        if i != pixel_index {
                            assert(snapshot.image_sp.pixels@[i] == top.image_sp.pixels@[i]);
                        }
                    }
                }
                Some(snapshot)
            },
            None => None,
        }
    }

    /// The number of decisions on the stack.
    pub fn len(&self) -> (r: usize)
        ensures
            r == self@.len(),
    {
        self.stack.len()
    }
}

} // verus!
