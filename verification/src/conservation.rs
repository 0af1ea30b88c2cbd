//! Breaking an object loses no mass: its fragments weigh together what the
//! object weighed.

use vstd::prelude::*;
use crate::material::MaterialTyp;
use crate::object::{lemma_number_cell, Object};

verus! {

/// The mass of the cells that fragment data lists.
pub open spec fn data_mass(data: Seq<([i64; 2], MaterialTyp)>) -> int
    decreases data.len(),
{
    if data.len() == 0 {
        0
    } else {
        data_mass(data.drop_last()) + data.last().1.spec_density()
    }
}

/// All cells of all fragments, fragment after fragment.
pub open spec fn all_cells(fragments: Seq<Seq<(usize, usize)>>) -> Seq<(usize, usize)>
    decreases fragments.len(),
{
    if fragments.len() == 0 {
        Seq::empty()
    } else {
        all_cells(fragments.drop_last()) + fragments.last()
    }
}

/// A cell is among all cells of the fragments if, and only if, it is in
/// one of the fragments.
pub proof fn lemma_all_cells_contains(fragments: Seq<Seq<(usize, usize)>>, c: (usize, usize))
    ensures
        all_cells(fragments).contains(c) <==> exists|f: int, p: int|
            0 <= f < fragments.len() && 0 <= p < fragments[f].len() && #[trigger] fragments[f][p] == c,
    decreases fragments.len(),
{
    if fragments.len() > 0 {
        let rest = fragments.drop_last();
        let flat = all_cells(fragments);
        lemma_all_cells_contains(rest, c);
        if flat.contains(c) {
            let t = choose|t: int| 0 <= t < flat.len() && flat[t] == c;
            if t < all_cells(rest).len() {
                assert(all_cells(rest)[t] == c);
                assert(all_cells(rest).contains(c));
                let (f, p) = choose|f: int, p: int|
                    0 <= f < rest.len() && 0 <= p < rest[f].len() && #[trigger] rest[f][p] == c;
                assert(fragments[f][p] == c);
            } else {
                let p = t - all_cells(rest).len();
                assert(fragments[fragments.len() - 1][p] == c);
            }
        }
        if exists|f: int, p: int|
            0 <= f < fragments.len() && 0 <= p < fragments[f].len() && #[trigger] fragments[f][p] == c {
            let (f, p) = choose|f: int, p: int|
                0 <= f < fragments.len() && 0 <= p < fragments[f].len() && #[trigger] fragments[f][p] == c;
            if f < rest.len() {
                assert(rest[f][p] == c);
                assert(all_cells(rest).contains(c));
                let t = choose|t: int| 0 <= t < all_cells(rest).len() && all_cells(rest)[t] == c;
                assert(flat[t] == c);
            } else {
                assert(flat[all_cells(rest).len() + p] == c);
            }
        }
    }
}

/// Where no cell stands twice in the fragments, no cell stands twice among
/// all their cells.
pub proof fn lemma_all_cells_distinct(fragments: Seq<Seq<(usize, usize)>>)
    requires
        forall|f: int, p: int, g: int, q: int|
            0 <= f < fragments.len() && 0 <= p < fragments[f].len() && 0 <= g < fragments.len() && 0 <= q
                < fragments[g].len() && #[trigger] fragments[f][p] == #[trigger] fragments[g][q] ==> f == g
                && p == q,
    ensures
        all_cells(fragments).no_duplicates(),
    decreases fragments.len(),
{
    if fragments.len() > 0 {
        let rest = fragments.drop_last();
        let flat = all_cells(fragments);
        assert forall|f: int, p: int, g: int, q: int|
            0 <= f < rest.len() && 0 <= p < rest[f].len() && 0 <= g < rest.len() && 0 <= q < rest[g].len()
                && #[trigger] rest[f][p] == #[trigger] rest[g][q] implies f == g && p == q by {
            assert(fragments[f][p] == fragments[g][q]);
        }
        lemma_all_cells_distinct(rest);
        let head = all_cells(rest);
        assert forall|s: int, t: int| 0 <= s < flat.len() && 0 <= t < flat.len() && s != t implies flat[s]
            != flat[t] by {
            if flat[s] == flat[t] {
                if s < head.len() && t < head.len() {
                    assert(head[s] == head[t]);
                } else if s >= head.len() && t >= head.len() {
                    let f = fragments.len() - 1;
                    assert(fragments[f][s - head.len()] == fragments[f][t - head.len()]);
                } else {
                    let (low, high) = if s < t {
                        (s, t)
                    } else {
                        (t, s)
                    };
                    assert(head[low] == flat[low]);
                    assert(head.contains(flat[low]));
                    lemma_all_cells_contains(rest, flat[low]);
                    let (f, p) = choose|f: int, p: int|
                        0 <= f < rest.len() && 0 <= p < rest[f].len() && #[trigger] rest[f][p] == flat[low];
                    let g = fragments.len() - 1;
                    assert(fragments[f][p] == fragments[g][high - head.len()]);
                }
            }
        }
    }
}

impl Object {
    /// The mass of the given cells of the object.
    pub open spec fn cells_mass(&self, cells: Seq<(usize, usize)>) -> int
        decreases cells.len(),
    {
        if cells.len() == 0 {
            0
        } else {
            self.cells_mass(cells.drop_last()) + self.material_at(
                cells.last().0 as int,
                cells.last().1 as int,
            ).spec_density()
        }
    }

    /// The mass of all fragments together, each weighed by the data that is
    /// extracted for it.
    pub open spec fn fragments_mass(&self, fragments: Seq<Seq<(usize, usize)>>) -> int
        decreases fragments.len(),
    {
        if fragments.len() == 0 {
            0
        } else {
            self.fragments_mass(fragments.drop_last()) + data_mass(self.fragment_data(fragments.last()))
        }
    }

    /// The data extracted for some cells weighs what the cells weigh.
    pub proof fn lemma_data_mass(&self, cells: Seq<(usize, usize)>)
        ensures
            data_mass(self.fragment_data(cells)) == self.cells_mass(cells),
        decreases cells.len(),
    {
        if cells.len() > 0 {
            self.lemma_data_mass(cells.drop_last());
            assert(self.fragment_data(cells).drop_last() =~= self.fragment_data(cells.drop_last()));
        }
    }

    /// Two rows of cells weigh together what they weigh apart.
    pub proof fn lemma_cells_mass_add(&self, a: Seq<(usize, usize)>, b: Seq<(usize, usize)>)
        ensures
            self.cells_mass(a + b) == self.cells_mass(a) + self.cells_mass(b),
        decreases b.len(),
    {
        if b.len() == 0 {
            assert(a + b =~= a);
        } else {
            self.lemma_cells_mass_add(a, b.drop_last());
            assert((a + b).drop_last() =~= a + b.drop_last());
        }
    }

    /// A row of cells without one of them weighs less by that cell.
    pub proof fn lemma_cells_mass_remove(&self, cells: Seq<(usize, usize)>, t: int)
        requires
            0 <= t < cells.len(),
        ensures
            self.cells_mass(cells) == self.cells_mass(cells.remove(t)) + self.material_at(
                cells[t].0 as int,
                cells[t].1 as int,
            ).spec_density(),
    {
        let before = cells.subrange(0, t);
        let one = cells.subrange(t, t + 1);
        let after = cells.subrange(t + 1, cells.len() as int);
        assert(cells =~= before + one + after);
        assert(cells.remove(t) =~= before + after);
        self.lemma_cells_mass_add(before + one, after);
        self.lemma_cells_mass_add(before, one);
        self.lemma_cells_mass_add(before, after);
        assert(one.drop_last() =~= Seq::<(usize, usize)>::empty());
        assert(self.cells_mass(one.drop_last()) == 0);
        assert(one.last() == cells[t]);
        assert(self.cells_mass(one) == self.material_at(cells[t].0 as int, cells[t].1 as int).spec_density());
    }

    /// The fragments weigh together what all their cells weigh.
    pub proof fn lemma_fragments_mass(&self, fragments: Seq<Seq<(usize, usize)>>)
        ensures
            self.fragments_mass(fragments) == self.cells_mass(all_cells(fragments)),
        decreases fragments.len(),
    {
        if fragments.len() > 0 {
            self.lemma_fragments_mass(fragments.drop_last());
            self.lemma_data_mass(fragments.last());
            self.lemma_cells_mass_add(all_cells(fragments.drop_last()), fragments.last());
        }
    }

    /// A row that holds each cell with material and a number below `m` once,
    /// and no other cell, weighs what the first `m` cells of the object weigh.
    pub proof fn lemma_cells_mass_upto(&self, cells: Seq<(usize, usize)>, m: int)
        requires
            self.shaped(),
            0 <= m <= self.cells(),
            cells.no_duplicates(),
            forall|c: (usize, usize)|
                cells.contains(c) <==> self.is_filled(c.0 as int, c.1 as int) && self.number_of(c) < m,
        ensures
            self.cells_mass(cells) == self.mass_upto(m),
        decreases m,
    {
        if m == 0 {
            if cells.len() > 0 {
                assert(cells.contains(cells[0]));
                self.lemma_numbering(cells[0]);
            }
        } else {
            let last = self.cell_numbered(m - 1);
            self.lemma_numbered(m - 1);
            lemma_number_cell(self.object_h as int, self.object_w as int, m - 1);
            if self.is_filled(last.0 as int, last.1 as int) {
                assert(cells.contains(last));
                let t = choose|t: int| 0 <= t < cells.len() && cells[t] == last;
                let rest = cells.remove(t);
                self.lemma_cells_mass_remove(cells, t);
                assert(rest.no_duplicates());
                assert forall|c: (usize, usize)|
                    rest.contains(c) <==> self.is_filled(c.0 as int, c.1 as int) && self.number_of(c) < m
                        - 1 by {
                    if rest.contains(c) {
                        let s = choose|s: int| 0 <= s < rest.len() && rest[s] == c;
                        if s < t {
                            assert(cells[s] == c);
                        } else {
                            assert(cells[s + 1] == c);
                        }
                        assert(cells.contains(c));
                        if self.number_of(c) == m - 1 {
                            self.lemma_numbering(c);
                        }
                    }
                    if self.is_filled(c.0 as int, c.1 as int) && self.number_of(c) < m - 1 {
                        assert(cells.contains(c));
                        let s = choose|s: int| 0 <= s < cells.len() && cells[s] == c;
                        if s < t {
                            assert(rest[s] == c);
                        } else {
                            assert(rest[s - 1] == c);
                        }
                    }
                }
                self.lemma_cells_mass_upto(rest, m - 1);
            } else {
                assert forall|c: (usize, usize)|
                    cells.contains(c) <==> self.is_filled(c.0 as int, c.1 as int) && self.number_of(c) < m
                        - 1 by {
                    if self.is_filled(c.0 as int, c.1 as int) && self.number_of(c) == m - 1 {
                        self.lemma_numbering(c);
                    }
                }
                self.lemma_cells_mass_upto(cells, m - 1);
            }
        }
    }

    /// No cell stands twice in the fragments of an object.
    pub proof fn lemma_fragments_disjoint(
        &self,
        broken: Seq<((usize, usize), (usize, usize))>,
        fragments: Seq<Seq<(usize, usize)>>,
    )
        requires
            self.is_fragmentation(broken, fragments),
        ensures
            forall|f: int, p: int, g: int, q: int|
                0 <= f < fragments.len() && 0 <= p < fragments[f].len() && 0 <= g < fragments.len() && 0
                    <= q < fragments[g].len() && #[trigger] fragments[f][p] == #[trigger] fragments[g][q]
                    ==> f == g && p == q,
    {
        assert forall|f: int, p: int, g: int, q: int|
            0 <= f < fragments.len() && 0 <= p < fragments[f].len() && 0 <= g < fragments.len() && 0 <= q
                < fragments[g].len() && #[trigger] fragments[f][p] == #[trigger] fragments[g][q] implies f
            == g && p == q by {
            let c = fragments[f][p];
            let path = seq![c];
            assert(self.is_path(broken, path));
            assert(path.first() == c && path.last() == c);
            assert(self.connected(broken, c, c));
            if p < q {
                assert(self.number_of(fragments[f][p]) < self.number_of(fragments[f][q]));
            }
            if q < p {
                assert(self.number_of(fragments[f][q]) < self.number_of(fragments[f][p]));
            }
        }
    }

    /// Mass is conserved across fragmentation: the fragments of an object,
    /// each weighed by the data that is extracted for it, weigh together
    /// what the object weighed, whichever bonds broke.
    pub proof fn lemma_mass_conserved(
        &self,
        broken: Seq<((usize, usize), (usize, usize))>,
        fragments: Seq<Seq<(usize, usize)>>,
    )
        requires
            self.wf(),
            self.is_fragmentation(broken, fragments),
        ensures
            self.fragments_mass(fragments) == self.total_object_mass,
    {
        let flat = all_cells(fragments);
        self.lemma_fragments_mass(fragments);
        self.lemma_fragments_disjoint(broken, fragments);
        lemma_all_cells_distinct(fragments);
        assert forall|c: (usize, usize)|
            flat.contains(c) <==> self.is_filled(c.0 as int, c.1 as int) && self.number_of(c)
                < self.cells() by {
            lemma_all_cells_contains(fragments, c);
            if self.is_filled(c.0 as int, c.1 as int) {
                self.lemma_numbering(c);
                let (f, p) = choose|f: int, p: int|
                    0 <= f < fragments.len() && 0 <= p < fragments[f].len() && #[trigger] fragments[f][p] == (
                        c.0 as int as usize,
                        c.1 as int as usize,
                    );
                assert(fragments[f][p] == c);
            }
        }
        self.lemma_cells_mass_upto(flat, self.cells());
    }
}

} // verus!
