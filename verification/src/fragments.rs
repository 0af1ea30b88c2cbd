//! The pieces into which an object falls once bonds have broken: the
//! connected components of its cells under the bonds that still hold.

use vstd::prelude::*;
use crate::forest::{merged, Forest};
use crate::fracture::lemma_ranked_lists_equal;
use crate::material::MaterialTyp;
use crate::object::{lemma_cell_number, lemma_number_cell, Object};

verus! {

/// The cells of each fragment, as sequences.
pub open spec fn views(fragments: Seq<Vec<(usize, usize)>>) -> Seq<Seq<(usize, usize)>> {
    Seq::new(fragments.len(), |f: int| fragments[f]@)
}

/// The cells of each fragment, where there are fragments.
pub open spec fn pieces_of(fragments: Option<Vec<Vec<(usize, usize)>>>) -> Option<Seq<Seq<(usize, usize)>>> {
    match fragments {
        Some(pieces) => Some(views(pieces@)),
        None => None,
    }
}

/// Whether `bond` is one of `broken_bonds`.
fn contains_bond(
    broken_bonds: &[((usize, usize), (usize, usize))],
    bond: ((usize, usize), (usize, usize)),
) -> (found: bool)
    ensures
        found == broken_bonds@.contains(bond),
{
    let mut k: usize = 0;
    while k < broken_bonds.len()
        invariant
            k <= broken_bonds.len(),
            forall|n: int| 0 <= n < k ==> broken_bonds@[n] != bond,
        decreases broken_bonds.len() - k,
    {
        let other = broken_bonds[k];
        if other.0.0 == bond.0.0 && other.0.1 == bond.0.1 && other.1.0 == bond.1.0 && other.1.1 == bond.1.1 {
            assert(broken_bonds@[k as int] == bond);
            return true;
        }
        k += 1;
    }
    false
}

impl Object {
    /// The number of a cell, counted row by row from the bottom left.
    pub open spec fn number_of(&self, c: (usize, usize)) -> int {
        c.0 * self.object_w + c.1
    }

    /// The cell with the number `k`.
    pub open spec fn cell_numbered(&self, k: int) -> (usize, usize) {
        ((k / (self.object_w as int)) as usize, (k % (self.object_w as int)) as usize)
    }

    /// Whether the bond from `a` to its right or upper neighbour `b` holds:
    /// both cells hold material and the bond is not among the broken ones.
    pub open spec fn intact(
        &self,
        broken: Seq<((usize, usize), (usize, usize))>,
        a: (usize, usize),
        b: (usize, usize),
    ) -> bool {
        self.is_bond(a, b) && !broken.contains((a, b))
    }

    /// Whether a bond holds between two cells, whichever of them comes first.
    pub open spec fn joined(
        &self,
        broken: Seq<((usize, usize), (usize, usize))>,
        a: (usize, usize),
        b: (usize, usize),
    ) -> bool {
        self.intact(broken, a, b) || self.intact(broken, b, a)
    }

    /// Whether each cell of `path` is joined to the next.
    pub open spec fn is_path(
        &self,
        broken: Seq<((usize, usize), (usize, usize))>,
        path: Seq<(usize, usize)>,
    ) -> bool {
        &&& path.len() > 0
        &&& forall|k: int| 0 <= k < path.len() - 1 ==> self.joined(broken, #[trigger] path[k], path[k + 1])
    }

    /// Whether a path of bonds that hold leads from `a` to `b`.
    pub open spec fn connected(
        &self,
        broken: Seq<((usize, usize), (usize, usize))>,
        a: (usize, usize),
        b: (usize, usize),
    ) -> bool {
        exists|path: Seq<(usize, usize)>| #[trigger]
            self.is_path(broken, path) && path.first() == a && path.last() == b
    }

    /// Whether a bond of rank below `rank` holds between two cells.
    pub open spec fn joined_below(
        &self,
        broken: Seq<((usize, usize), (usize, usize))>,
        a: (usize, usize),
        b: (usize, usize),
        rank: int,
    ) -> bool {
        ||| self.intact(broken, a, b) && self.impact_rank((a, b)) < rank
        ||| self.intact(broken, b, a) && self.impact_rank((b, a)) < rank
    }

    /// Whether each cell of `path` is joined to the next by a bond of rank
    /// below `rank`.
    pub open spec fn is_path_below(
        &self,
        broken: Seq<((usize, usize), (usize, usize))>,
        path: Seq<(usize, usize)>,
        rank: int,
    ) -> bool {
        &&& path.len() > 0
        &&& forall|k: int|
            0 <= k < path.len() - 1 ==> self.joined_below(broken, #[trigger] path[k], path[k + 1], rank)
    }

    /// Whether a path of bonds that hold, all of rank below `rank`, leads
    /// from `a` to `b`.
    pub open spec fn linked_below(
        &self,
        broken: Seq<((usize, usize), (usize, usize))>,
        a: (usize, usize),
        b: (usize, usize),
        rank: int,
    ) -> bool {
        exists|path: Seq<(usize, usize)>| #[trigger]
            self.is_path_below(broken, path, rank) && path.first() == a && path.last() == b
    }

    /// `fragments` are the pieces of the object once the bonds of `broken`
    /// are gone. Every cell in them holds material, and every cell that
    /// holds material is in one of them. None is empty. Two cells are in
    /// the same fragment if, and only if, they are connected. The cells of
    /// a fragment stand in the order of their numbers, and the fragments in
    /// the order of their first cells.
    pub open spec fn is_fragmentation(
        &self,
        broken: Seq<((usize, usize), (usize, usize))>,
        fragments: Seq<Seq<(usize, usize)>>,
    ) -> bool {
        &&& forall|f: int, p: int|
            0 <= f < fragments.len() && 0 <= p < fragments[f].len() ==> self.is_filled(
                (#[trigger] fragments[f][p]).0 as int,
                fragments[f][p].1 as int,
            )
        &&& forall|i: int, j: int|
            self.is_filled(i, j) ==> exists|f: int, p: int|
                0 <= f < fragments.len() && 0 <= p < fragments[f].len() && #[trigger] fragments[f][p] == (
                    i as usize,
                    j as usize,
                )
        &&& forall|f: int| 0 <= f < fragments.len() ==> (#[trigger] fragments[f]).len() > 0
        &&& forall|f: int, p: int, g: int, q: int|
            0 <= f < fragments.len() && 0 <= p < fragments[f].len() && 0 <= g < fragments.len() && 0 <= q
                < fragments[g].len() ==> (f == g <==> self.connected(
                broken,
                #[trigger] fragments[f][p],
                #[trigger] fragments[g][q],
            ))
        &&& forall|f: int, p: int, q: int|
            0 <= f < fragments.len() && 0 <= p < q < fragments[f].len() ==> self.number_of(
                #[trigger] fragments[f][p],
            ) < self.number_of(#[trigger] fragments[f][q])
        &&& forall|f: int, g: int|
            0 <= f < g < fragments.len() ==> self.number_of((#[trigger] fragments[f])[0]) < self.number_of(
                (#[trigger] fragments[g])[0],
            )
    }

    /// Numbers that share a root are linked by bonds of rank below `rank`.
    #[verifier::opaque]
    pub open spec fn sound(
        &self,
        broken: Seq<((usize, usize), (usize, usize))>,
        roots: Seq<int>,
        rank: int,
    ) -> bool {
        forall|x: int, y: int|
            0 <= x < self.cells() && 0 <= y < self.cells() && #[trigger] roots[x] == #[trigger] roots[y]
                ==> self.linked_below(broken, self.cell_numbered(x), self.cell_numbered(y), rank)
    }

    /// The two cells of every bond of rank below `rank` that holds share a
    /// root.
    #[verifier::opaque]
    pub open spec fn complete(
        &self,
        broken: Seq<((usize, usize), (usize, usize))>,
        roots: Seq<int>,
        rank: int,
    ) -> bool {
        forall|a: (usize, usize), b: (usize, usize)|
            #[trigger] self.intact(broken, a, b) && self.impact_rank((a, b)) < rank ==> roots[self.number_of(
                a,
            )] == roots[self.number_of(b)]
    }

    /// A cell of the object is the cell with its number.
    pub proof fn lemma_numbering(&self, c: (usize, usize))
        requires
            self.has_cell(c.0 as int, c.1 as int),
        ensures
            0 <= self.number_of(c) < self.cells(),
            self.cell_numbered(self.number_of(c)) == c,
    {
        lemma_cell_number(self.object_h as int, self.object_w as int, c.0 as int, c.1 as int);
    }

    /// A number below the number of cells is the number of its cell.
    pub proof fn lemma_numbered(&self, k: int)
        requires
            0 <= k < self.cells(),
        ensures
            self.has_cell(self.cell_numbered(k).0 as int, self.cell_numbered(k).1 as int),
            self.number_of(self.cell_numbered(k)) == k,
    {
        lemma_number_cell(self.object_h as int, self.object_w as int, k);
    }

    /// A cell is linked to itself.
    pub proof fn lemma_linked_refl(
        &self,
        broken: Seq<((usize, usize), (usize, usize))>,
        a: (usize, usize),
        rank: int,
    )
        ensures
            self.linked_below(broken, a, a, rank),
    {
        let path = seq![a];
        assert(self.is_path_below(broken, path, rank));
        assert(path.first() == a && path.last() == a);
    }

    /// Two joined cells are linked.
    pub proof fn lemma_linked_step(
        &self,
        broken: Seq<((usize, usize), (usize, usize))>,
        a: (usize, usize),
        b: (usize, usize),
        rank: int,
    )
        requires
            self.joined_below(broken, a, b, rank),
        ensures
            self.linked_below(broken, a, b, rank),
    {
        let path = seq![a, b];
        assert forall|k: int| 0 <= k < path.len() - 1 implies self.joined_below(
            broken,
            #[trigger] path[k],
            path[k + 1],
            rank,
        ) by {
            assert(k == 0);
        }
        assert(self.is_path_below(broken, path, rank));
        assert(path.first() == a && path.last() == b);
    }

    /// What is linked one way is linked the other way.
    pub proof fn lemma_linked_sym(
        &self,
        broken: Seq<((usize, usize), (usize, usize))>,
        a: (usize, usize),
        b: (usize, usize),
        rank: int,
    )
        requires
            self.linked_below(broken, a, b, rank),
        ensures
            self.linked_below(broken, b, a, rank),
    {
        let path = choose|path: Seq<(usize, usize)>| #[trigger]
            self.is_path_below(broken, path, rank) && path.first() == a && path.last() == b;
        let back = Seq::new(path.len(), |k: int| path[path.len() - 1 - k]);
        assert forall|k: int| 0 <= k < back.len() - 1 implies self.joined_below(
            broken,
            #[trigger] back[k],
            back[k + 1],
            rank,
        ) by {
            let m = path.len() - 2 - k;
            assert(self.joined_below(broken, path[m], path[m + 1], rank));
        }
        assert(self.is_path_below(broken, back, rank));
        assert(back.first() == b && back.last() == a);
    }

    /// What is linked by way of a third cell is linked.
    pub proof fn lemma_linked_trans(
        &self,
        broken: Seq<((usize, usize), (usize, usize))>,
        a: (usize, usize),
        b: (usize, usize),
        c: (usize, usize),
        rank: int,
    )
        requires
            self.linked_below(broken, a, b, rank),
            self.linked_below(broken, b, c, rank),
        ensures
            self.linked_below(broken, a, c, rank),
    {
        let first = choose|path: Seq<(usize, usize)>| #[trigger]
            self.is_path_below(broken, path, rank) && path.first() == a && path.last() == b;
        let second = choose|path: Seq<(usize, usize)>| #[trigger]
            self.is_path_below(broken, path, rank) && path.first() == b && path.last() == c;
        let path = first + second.drop_first();
        assert forall|k: int| 0 <= k < path.len() - 1 implies self.joined_below(
            broken,
            #[trigger] path[k],
            path[k + 1],
            rank,
        ) by {
            if k < first.len() - 1 {
                assert(self.joined_below(broken, first[k], first[k + 1], rank));
            } else {
                let m = k - first.len() + 1;
                assert(self.joined_below(broken, second[m], second[m + 1], rank));
            }
        }
        assert(self.is_path_below(broken, path, rank));
        assert(path.first() == a);
        if second.len() == 1 {
            assert(path.last() == c);
        } else {
            assert(path.last() == c);
        }
    }

    /// What is linked by bonds of rank below one bound is linked by bonds of
    /// rank below any greater bound.
    pub proof fn lemma_linked_grow(
        &self,
        broken: Seq<((usize, usize), (usize, usize))>,
        a: (usize, usize),
        b: (usize, usize),
        rank: int,
        more: int,
    )
        requires
            self.linked_below(broken, a, b, rank),
            rank <= more,
        ensures
            self.linked_below(broken, a, b, more),
    {
        let path = choose|path: Seq<(usize, usize)>| #[trigger]
            self.is_path_below(broken, path, rank) && path.first() == a && path.last() == b;
        assert forall|k: int| 0 <= k < path.len() - 1 implies self.joined_below(
            broken,
            #[trigger] path[k],
            path[k + 1],
            more,
        ) by {
            assert(self.joined_below(broken, path[k], path[k + 1], rank));
        }
        assert(self.is_path_below(broken, path, more));
    }

    /// What is linked is connected.
    pub proof fn lemma_linked_is_connected(
        &self,
        broken: Seq<((usize, usize), (usize, usize))>,
        a: (usize, usize),
        b: (usize, usize),
        rank: int,
    )
        requires
            self.linked_below(broken, a, b, rank),
        ensures
            self.connected(broken, a, b),
    {
        let path = choose|path: Seq<(usize, usize)>| #[trigger]
            self.is_path_below(broken, path, rank) && path.first() == a && path.last() == b;
        assert forall|k: int| 0 <= k < path.len() - 1 implies self.joined(
            broken,
            #[trigger] path[k],
            path[k + 1],
        ) by {
            assert(self.joined_below(broken, path[k], path[k + 1], rank));
        }
        assert(self.is_path(broken, path));
    }

    /// Where no bond of rank `rank` holds, roots that are sound and complete
    /// below `rank` are so below the next rank.
    pub proof fn lemma_skip_keeps(
        &self,
        broken: Seq<((usize, usize), (usize, usize))>,
        roots: Seq<int>,
        rank: int,
    )
        requires
            self.sound(broken, roots, rank),
            self.complete(broken, roots, rank),
            forall|a: (usize, usize), b: (usize, usize)|
                #[trigger] self.intact(broken, a, b) ==> self.impact_rank((a, b)) != rank,
        ensures
            self.sound(broken, roots, rank + 1),
            self.complete(broken, roots, rank + 1),
    {
        reveal(Object::sound);
        reveal(Object::complete);
        assert forall|x: int, y: int|
            0 <= x < self.cells() && 0 <= y < self.cells() && #[trigger] roots[x]
                == #[trigger] roots[y] implies self.linked_below(
            broken,
            self.cell_numbered(x),
            self.cell_numbered(y),
            rank + 1,
        ) by {
            self.lemma_linked_grow(broken, self.cell_numbered(x), self.cell_numbered(y), rank, rank + 1);
        }
    }

    /// Where the bond of rank `rank` holds, merging the sets of its two
    /// cells turns roots that are sound and complete below `rank` into roots
    /// that are so below the next rank.
    pub proof fn lemma_union_keeps(
        &self,
        broken: Seq<((usize, usize), (usize, usize))>,
        roots: Seq<int>,
        a: (usize, usize),
        b: (usize, usize),
        rank: int,
    )
        requires
            self.shaped(),
            roots.len() == self.cells(),
            self.sound(broken, roots, rank),
            self.complete(broken, roots, rank),
            self.intact(broken, a, b),
            self.impact_rank((a, b)) == rank,
        ensures
            self.sound(
                broken,
                merged(roots, roots[self.number_of(a)], roots[self.number_of(b)]),
                rank + 1,
            ),
            self.complete(
                broken,
                merged(roots, roots[self.number_of(a)], roots[self.number_of(b)]),
                rank + 1,
            ),
    {
        reveal(Object::sound);
        reveal(Object::complete);
        let na = self.number_of(a);
        let nb = self.number_of(b);
        let ra = roots[na];
        let rb = roots[nb];
        let after = merged(roots, ra, rb);
        self.lemma_numbering(a);
        self.lemma_numbering(b);
        self.lemma_linked_step(broken, a, b, rank + 1);
        assert forall|x: int, y: int|
            0 <= x < self.cells() && 0 <= y < self.cells() && #[trigger] after[x]
                == #[trigger] after[y] implies self.linked_below(
            broken,
            self.cell_numbered(x),
            self.cell_numbered(y),
            rank + 1,
        ) by {
            let cx = self.cell_numbered(x);
            let cy = self.cell_numbered(y);
            if roots[x] == roots[y] {
                self.lemma_linked_grow(broken, cx, cy, rank, rank + 1);
            } else if roots[x] == ra {
                assert(roots[y] == rb);
                assert(roots[x] == roots[na]);
                assert(roots[nb] == roots[y]);
                self.lemma_linked_grow(broken, cx, a, rank, rank + 1);
                self.lemma_linked_grow(broken, b, cy, rank, rank + 1);
                self.lemma_linked_trans(broken, cx, a, b, rank + 1);
                self.lemma_linked_trans(broken, cx, b, cy, rank + 1);
            } else {
                assert(roots[y] == ra);
                assert(roots[x] == rb);
                assert(roots[y] == roots[na]);
                assert(roots[nb] == roots[x]);
                self.lemma_linked_grow(broken, cy, a, rank, rank + 1);
                self.lemma_linked_grow(broken, b, cx, rank, rank + 1);
                self.lemma_linked_trans(broken, cy, a, b, rank + 1);
                self.lemma_linked_trans(broken, cy, b, cx, rank + 1);
                self.lemma_linked_sym(broken, cy, cx, rank + 1);
            }
        }
        assert forall|c: (usize, usize), d: (usize, usize)| #[trigger]
            self.intact(broken, c, d) && self.impact_rank((c, d)) < rank + 1 implies after[self.number_of(
            c,
        )] == after[self.number_of(d)] by {
            self.lemma_numbering(c);
            self.lemma_numbering(d);
            if self.impact_rank((c, d)) == rank {
                self.lemma_impact_rank_unique((c, d), (a, b));
            } else {
                assert(roots[self.number_of(c)] == roots[self.number_of(d)]);
            }
        }
    }

    /// All cells of a path share the root of its first cell, where roots are
    /// complete.
    pub proof fn lemma_path_shares_root(
        &self,
        broken: Seq<((usize, usize), (usize, usize))>,
        roots: Seq<int>,
        path: Seq<(usize, usize)>,
        k: int,
    )
        requires
            self.shaped(),
            self.complete(broken, roots, 2 * self.cells()),
            self.is_path(broken, path),
            0 <= k < path.len(),
        ensures
            roots[self.number_of(path[k])] == roots[self.number_of(path[0])],
        decreases k,
    {
        reveal(Object::complete);
        if k > 0 {
            self.lemma_path_shares_root(broken, roots, path, k - 1);
            assert(self.joined(broken, path[k - 1], path[k - 1 + 1]));
            if self.intact(broken, path[k - 1], path[k]) {
                self.lemma_numbering(path[k - 1]);
                assert(self.impact_rank((path[k - 1], path[k])) < 2 * self.cells());
            } else {
                self.lemma_numbering(path[k]);
                assert(self.impact_rank((path[k], path[k - 1])) < 2 * self.cells());
            }
        }
    }

    /// Once every bond has had its turn, two cells share a root if, and only
    /// if, they are connected.
    pub proof fn lemma_roots_are_components(
        &self,
        broken: Seq<((usize, usize), (usize, usize))>,
        roots: Seq<int>,
        a: (usize, usize),
        b: (usize, usize),
    )
        requires
            self.shaped(),
            self.sound(broken, roots, 2 * self.cells()),
            self.complete(broken, roots, 2 * self.cells()),
            self.has_cell(a.0 as int, a.1 as int),
            self.has_cell(b.0 as int, b.1 as int),
        ensures
            roots[self.number_of(a)] == roots[self.number_of(b)] <==> self.connected(broken, a, b),
    {
        reveal(Object::sound);
        self.lemma_numbering(a);
        self.lemma_numbering(b);
        if roots[self.number_of(a)] == roots[self.number_of(b)] {
            self.lemma_linked_is_connected(broken, a, b, 2 * self.cells());
        }
        if self.connected(broken, a, b) {
            let path = choose|path: Seq<(usize, usize)>| #[trigger]
                self.is_path(broken, path) && path.first() == a && path.last() == b;
            self.lemma_path_shares_root(broken, roots, path, path.len() - 1);
        }
    }

    /// Every fragment of one fragmentation is a fragment of any other.
    pub proof fn lemma_fragment_found_again(
        &self,
        broken: Seq<((usize, usize), (usize, usize))>,
        fragments: Seq<Seq<(usize, usize)>>,
        others: Seq<Seq<(usize, usize)>>,
        f: int,
    )
        requires
            self.is_fragmentation(broken, fragments),
            self.is_fragmentation(broken, others),
            0 <= f < fragments.len(),
        ensures
            others.contains(fragments[f]),
    {
        let mine = fragments[f];
        let c = mine[0];
        assert(self.is_filled(fragments[f][0].0 as int, fragments[f][0].1 as int));
        let (g, q) = choose|g: int, q: int|
            0 <= g < others.len() && 0 <= q < others[g].len() && #[trigger] others[g][q] == (
                c.0 as int as usize,
                c.1 as int as usize,
            );
        let theirs = others[g];
        assert(others[g][q] == c);
        let rank = |cell: (usize, usize)| self.number_of(cell);
        assert forall|d: (usize, usize)| mine.contains(d) <==> theirs.contains(d) by {
            if mine.contains(d) {
                let p = choose|p: int| 0 <= p < mine.len() && mine[p] == d;
                assert(self.connected(broken, fragments[f][0], fragments[f][p]));
                assert(self.is_filled(fragments[f][p].0 as int, fragments[f][p].1 as int));
                let (g2, q2) = choose|g2: int, q2: int|
                    0 <= g2 < others.len() && 0 <= q2 < others[g2].len() && #[trigger] others[g2][q2] == (
                        d.0 as int as usize,
                        d.1 as int as usize,
                    );
                assert(others[g2][q2] == d);
                assert(self.connected(broken, others[g][q], others[g2][q2]));
                assert(g == g2);
                assert(theirs[q2] == d);
            }
            if theirs.contains(d) {
                let p = choose|p: int| 0 <= p < theirs.len() && theirs[p] == d;
                assert(self.connected(broken, others[g][q], others[g][p]));
                assert(self.is_filled(others[g][p].0 as int, others[g][p].1 as int));
                let (f2, p2) = choose|f2: int, p2: int|
                    0 <= f2 < fragments.len() && 0 <= p2 < fragments[f2].len() && #[trigger] fragments[f2][p2]
                        == (d.0 as int as usize, d.1 as int as usize);
                assert(fragments[f2][p2] == d);
                assert(self.connected(broken, fragments[f][0], fragments[f2][p2]));
                assert(f == f2);
                assert(mine[p2] == d);
            }
        }
        assert forall|p: int, q: int| 0 <= p < q < mine.len() implies rank(#[trigger] mine[p]) < rank(
            #[trigger] mine[q],
        ) by {
            assert(self.number_of(fragments[f][p]) < self.number_of(fragments[f][q]));
        }
        assert forall|p: int, q: int| 0 <= p < q < theirs.len() implies rank(#[trigger] theirs[p]) < rank(
            #[trigger] theirs[q],
        ) by {
            assert(self.number_of(others[g][p]) < self.number_of(others[g][q]));
        }
        lemma_ranked_lists_equal(mine, theirs, rank);
        assert(others[g] == mine);
    }

    /// The fragments of an object are one list: the cells, the bonds that
    /// broke, and the order of cells and fragments leave no choice.
    pub proof fn lemma_fragmentation_unique(
        &self,
        broken: Seq<((usize, usize), (usize, usize))>,
        fragments: Seq<Seq<(usize, usize)>>,
        others: Seq<Seq<(usize, usize)>>,
    )
        requires
            self.is_fragmentation(broken, fragments),
            self.is_fragmentation(broken, others),
        ensures
            fragments == others,
    {
        let rank = |fragment: Seq<(usize, usize)>| self.number_of(fragment[0]);
        assert forall|fragment: Seq<(usize, usize)>|
            fragments.contains(fragment) <==> others.contains(fragment) by {
            if fragments.contains(fragment) {
                let f = choose|f: int| 0 <= f < fragments.len() && fragments[f] == fragment;
                self.lemma_fragment_found_again(broken, fragments, others, f);
            }
            if others.contains(fragment) {
                let g = choose|g: int| 0 <= g < others.len() && others[g] == fragment;
                self.lemma_fragment_found_again(broken, others, fragments, g);
            }
        }
        assert forall|p: int, q: int| 0 <= p < q < fragments.len() implies rank(#[trigger] fragments[p])
            < rank(#[trigger] fragments[q]) by {
            assert(self.number_of(fragments[p][0]) < self.number_of(fragments[q][0]));
        }
        assert forall|p: int, q: int| 0 <= p < q < others.len() implies rank(#[trigger] others[p]) < rank(
            #[trigger] others[q],
        ) by {
            assert(self.number_of(others[p][0]) < self.number_of(others[q][0]));
        }
        lemma_ranked_lists_equal(fragments, others, rank);
    }

    /// The state of gathering cells into fragments by their roots, once the
    /// first `k` cells have had their turn. `slot` gives the fragment of each
    /// root, or the number of cells for a root that has no fragment yet, and
    /// `frag_root` the root of each fragment.
    #[verifier::opaque]
    pub open spec fn gathered(
        &self,
        roots: Seq<int>,
        slot: Seq<usize>,
        frag_root: Seq<int>,
        fragments: Seq<Seq<(usize, usize)>>,
        k: int,
    ) -> bool {
        &&& slot.len() == self.cells()
        &&& roots.len() == self.cells()
        &&& frag_root.len() == fragments.len()
        &&& fragments.len() <= k
        &&& forall|x: int| 0 <= x < self.cells() ==> 0 <= (#[trigger] roots[x]) < self.cells()
        &&& forall|r: int|
            0 <= r < self.cells() ==> {
                &&& (#[trigger] slot[r]) == self.cells() || slot[r] < fragments.len()
                &&& slot[r] < fragments.len() ==> frag_root[slot[r] as int] == r
            }
        &&& forall|f: int|
            #![trigger frag_root[f]]
            #![trigger fragments[f]]
            0 <= f < fragments.len() ==> {
                &&& 0 <= frag_root[f] < self.cells()
                &&& slot[frag_root[f]] == f
                &&& fragments[f].len() > 0
            }
        &&& forall|f: int, p: int|
            0 <= f < fragments.len() && 0 <= p < fragments[f].len() ==> {
                &&& self.is_filled((#[trigger] fragments[f][p]).0 as int, fragments[f][p].1 as int)
                &&& self.number_of(fragments[f][p]) < k
                &&& roots[self.number_of(fragments[f][p])] == frag_root[f]
            }
        &&& forall|f: int, p: int, q: int|
            0 <= f < fragments.len() && 0 <= p < q < fragments[f].len() ==> self.number_of(
                #[trigger] fragments[f][p],
            ) < self.number_of(#[trigger] fragments[f][q])
        &&& forall|f: int, g: int|
            0 <= f < g < fragments.len() ==> self.number_of((#[trigger] fragments[f])[0]) < self.number_of(
                (#[trigger] fragments[g])[0],
            )
        &&& forall|x: int|
            0 <= x < k && x < self.cells() && self.is_filled(
                self.cell_numbered(x).0 as int,
                self.cell_numbered(x).1 as int,
            ) ==> slot[#[trigger] roots[x]] < fragments.len() && fragments[slot[roots[x]] as int].contains(
                self.cell_numbered(x),
            )
    }

    /// What the gathering says of the sizes of its parts.
    proof fn lemma_gathered_sizes(
        &self,
        roots: Seq<int>,
        slot: Seq<usize>,
        frag_root: Seq<int>,
        fragments: Seq<Seq<(usize, usize)>>,
        k: int,
    )
        requires
            self.gathered(roots, slot, frag_root, fragments, k),
        ensures
            slot.len() == self.cells(),
            fragments.len() <= k,
            forall|r: int|
                0 <= r < self.cells() ==> (#[trigger] slot[r]) == self.cells() || slot[r] < fragments.len(),
    {
        reveal(Object::gathered);
    }

    /// A cell without material leaves the gathering as it is.
    proof fn lemma_gather_skip(
        &self,
        roots: Seq<int>,
        slot: Seq<usize>,
        frag_root: Seq<int>,
        fragments: Seq<Seq<(usize, usize)>>,
        k: int,
    )
        requires
            self.gathered(roots, slot, frag_root, fragments, k),
            0 <= k < self.cells(),
            !self.is_filled(self.cell_numbered(k).0 as int, self.cell_numbered(k).1 as int),
        ensures
            self.gathered(roots, slot, frag_root, fragments, k + 1),
    {
        reveal(Object::gathered);
    }

    /// A cell whose root has no fragment yet opens a fragment of its own.
    proof fn lemma_gather_open(
        &self,
        roots: Seq<int>,
        slot: Seq<usize>,
        frag_root: Seq<int>,
        fragments: Seq<Seq<(usize, usize)>>,
        k: int,
    )
        requires
            self.shaped(),
            self.gathered(roots, slot, frag_root, fragments, k),
            0 <= k < self.cells(),
            0 <= roots[k] < self.cells(),
            self.is_filled(self.cell_numbered(k).0 as int, self.cell_numbered(k).1 as int),
            slot[roots[k]] == self.cells(),
        ensures
            self.gathered(
                roots,
                slot.update(roots[k], fragments.len() as usize),
                frag_root.push(roots[k]),
                fragments.push(seq![self.cell_numbered(k)]),
                k + 1,
            ),
    {
        reveal(Object::gathered);
        let c = self.cell_numbered(k);
        let r = roots[k];
        let slot2 = slot.update(r, fragments.len() as usize);
        let root2 = frag_root.push(r);
        let frags2 = fragments.push(seq![c]);
        self.lemma_numbered(k);
        assert forall|f: int|
            #![trigger root2[f]]
            #![trigger frags2[f]]
            0 <= f < frags2.len() implies {
            &&& 0 <= root2[f] < self.cells()
            &&& slot2[root2[f]] == f
            &&& frags2[f].len() > 0
        } by {
            if f < fragments.len() {
                assert(frag_root[f] == root2[f]);
                assert(slot[frag_root[f]] == f);
            }
        }
        assert forall|f: int, p: int| 0 <= f < frags2.len() && 0 <= p < frags2[f].len() implies {
            &&& self.is_filled((#[trigger] frags2[f][p]).0 as int, frags2[f][p].1 as int)
            &&& self.number_of(frags2[f][p]) < k + 1
            &&& roots[self.number_of(frags2[f][p])] == root2[f]
        } by {
            if f < fragments.len() {
                assert(frags2[f][p] == fragments[f][p]);
            }
        }
        assert forall|f: int, p: int, q: int|
            0 <= f < frags2.len() && 0 <= p < q < frags2[f].len() implies self.number_of(
            #[trigger] frags2[f][p],
        ) < self.number_of(#[trigger] frags2[f][q]) by {
            if f < fragments.len() {
                assert(frags2[f][p] == fragments[f][p]);
                assert(frags2[f][q] == fragments[f][q]);
            }
        }
        assert forall|f: int, g: int| 0 <= f < g < frags2.len() implies self.number_of(
            (#[trigger] frags2[f])[0],
        ) < self.number_of((#[trigger] frags2[g])[0]) by {
            assert(frags2[f] == fragments[f]);
            if g < fragments.len() {
                assert(frags2[g] == fragments[g]);
            } else {
                assert(self.number_of(fragments[f][0]) < k);
            }
        }
        assert forall|x: int|
            0 <= x < k + 1 && x < self.cells() && self.is_filled(
                self.cell_numbered(x).0 as int,
                self.cell_numbered(x).1 as int,
            ) implies slot2[#[trigger] roots[x]] < frags2.len() && frags2[slot2[roots[x]] as int].contains(
            self.cell_numbered(x),
        ) by {
            if x < k {
                assert(slot[roots[x]] < fragments.len());
                assert(roots[x] != r);
                assert(frags2[slot[roots[x]] as int] == fragments[slot[roots[x]] as int]);
            } else {
                assert(frags2[fragments.len() as int][0] == c);
            }
        }
        assert forall|s: int| 0 <= s < self.cells() implies {
            &&& (#[trigger] slot2[s]) == self.cells() || slot2[s] < frags2.len()
            &&& slot2[s] < frags2.len() ==> root2[slot2[s] as int] == s
        } by {
            if s != r {
                assert(slot2[s] == slot[s]);
            }
        }
    }

    /// A cell whose root has a fragment joins that fragment.
    proof fn lemma_gather_extend(
        &self,
        roots: Seq<int>,
        slot: Seq<usize>,
        frag_root: Seq<int>,
        fragments: Seq<Seq<(usize, usize)>>,
        k: int,
    )
        requires
            self.shaped(),
            self.gathered(roots, slot, frag_root, fragments, k),
            0 <= k < self.cells(),
            0 <= roots[k] < self.cells(),
            self.is_filled(self.cell_numbered(k).0 as int, self.cell_numbered(k).1 as int),
            slot[roots[k]] < fragments.len(),
        ensures
            self.gathered(
                roots,
                slot,
                frag_root,
                fragments.update(
                    slot[roots[k]] as int,
                    fragments[slot[roots[k]] as int].push(self.cell_numbered(k)),
                ),
                k + 1,
            ),
    {
        reveal(Object::gathered);
        let c = self.cell_numbered(k);
        let r = roots[k];
        let s = slot[r] as int;
        let frags2 = fragments.update(s, fragments[s].push(c));
        self.lemma_numbered(k);
        assert(frag_root[s] == r);
        assert forall|f: int|
            #![trigger frag_root[f]]
            #![trigger frags2[f]]
            0 <= f < frags2.len() implies {
            &&& 0 <= frag_root[f] < self.cells()
            &&& slot[frag_root[f]] == f
            &&& frags2[f].len() > 0
        } by {
            assert(fragments[f].len() > 0);
        }
        assert forall|f: int, p: int| 0 <= f < frags2.len() && 0 <= p < frags2[f].len() implies {
            &&& self.is_filled((#[trigger] frags2[f][p]).0 as int, frags2[f][p].1 as int)
            &&& self.number_of(frags2[f][p]) < k + 1
            &&& roots[self.number_of(frags2[f][p])] == frag_root[f]
        } by {
            if f != s || p < fragments[s].len() {
                assert(frags2[f][p] == fragments[f][p]);
            }
        }
        assert forall|f: int, p: int, q: int|
            0 <= f < frags2.len() && 0 <= p < q < frags2[f].len() implies self.number_of(
            #[trigger] frags2[f][p],
        ) < self.number_of(#[trigger] frags2[f][q]) by {
            assert(frags2[f][p] == fragments[f][p]);
            if f != s || q < fragments[s].len() {
                assert(frags2[f][q] == fragments[f][q]);
            } else {
                assert(self.number_of(fragments[f][p]) < k);
            }
        }
        assert forall|f: int, g: int| 0 <= f < g < frags2.len() implies self.number_of(
            (#[trigger] frags2[f])[0],
        ) < self.number_of((#[trigger] frags2[g])[0]) by {
            assert(fragments[f].len() > 0 && fragments[g].len() > 0);
            assert(frags2[f][0] == fragments[f][0]);
            assert(frags2[g][0] == fragments[g][0]);
        }
        assert forall|x: int|
            0 <= x < k + 1 && x < self.cells() && self.is_filled(
                self.cell_numbered(x).0 as int,
                self.cell_numbered(x).1 as int,
            ) implies slot[#[trigger] roots[x]] < frags2.len() && frags2[slot[roots[x]] as int].contains(
            self.cell_numbered(x),
        ) by {
            if x < k {
                let t = slot[roots[x]] as int;
                assert(fragments[t].contains(self.cell_numbered(x)));
                let p = choose|p: int| 0 <= p < fragments[t].len() && fragments[t][p] == self.cell_numbered(x);
                assert(frags2[t][p] == self.cell_numbered(x));
            } else {
                assert(frags2[s][fragments[s].len() as int] == c);
            }
        }
    }

    /// Cells gathered by roots that are sound and complete once every bond
    /// has had its turn are the object's fragments.
    proof fn lemma_gathered_is_fragmentation(
        &self,
        broken: Seq<((usize, usize), (usize, usize))>,
        roots: Seq<int>,
        slot: Seq<usize>,
        frag_root: Seq<int>,
        fragments: Seq<Seq<(usize, usize)>>,
    )
        requires
            self.shaped(),
            self.gathered(roots, slot, frag_root, fragments, self.cells()),
            self.sound(broken, roots, 2 * self.cells()),
            self.complete(broken, roots, 2 * self.cells()),
        ensures
            self.is_fragmentation(broken, fragments),
    {
        reveal(Object::gathered);
        assert forall|i: int, j: int| self.is_filled(i, j) implies exists|f: int, p: int|
            0 <= f < fragments.len() && 0 <= p < fragments[f].len() && #[trigger] fragments[f][p] == (
                i as usize,
                j as usize,
            ) by {
            let c = (i as usize, j as usize);
            self.lemma_numbering(c);
            let x = self.number_of(c);
            let f = slot[roots[x]] as int;
            assert(fragments[f].contains(c));
            let p = choose|p: int| 0 <= p < fragments[f].len() && fragments[f][p] == c;
            assert(fragments[f][p] == c);
        }
        assert forall|f: int, p: int, g: int, q: int|
            0 <= f < fragments.len() && 0 <= p < fragments[f].len() && 0 <= g < fragments.len() && 0 <= q
                < fragments[g].len() implies (f == g <==> self.connected(
            broken,
            #[trigger] fragments[f][p],
            #[trigger] fragments[g][q],
        )) by {
            let a = fragments[f][p];
            let b = fragments[g][q];
            assert(self.is_filled(a.0 as int, a.1 as int));
            assert(self.is_filled(b.0 as int, b.1 as int));
            self.lemma_roots_are_components(broken, roots, a, b);
            assert(slot[frag_root[f]] == f);
            assert(slot[frag_root[g]] == g);
        }
    }

    /// Computes [`Object::intact`] for the bond from the cell `a` of the
    /// object to `b`.
    fn bond_holds(
        &self,
        broken_bonds: &[((usize, usize), (usize, usize))],
        a: (usize, usize),
        b: (usize, usize),
    ) -> (holds: bool)
        requires
            self.shaped(),
            self.has_cell(a.0 as int, a.1 as int),
            (a.0 == b.0 && a.1 + 1 == b.1) || (a.0 + 1 == b.0 && a.1 == b.1),
        ensures
            holds == self.intact(broken_bonds@, a, b),
    {
        if b.0 >= self.object_h || b.1 >= self.object_w {
            return false;
        }
        if self.object_grid[a.0][a.1].0.material == MaterialTyp::Luft {
            return false;
        }
        if self.object_grid[b.0][b.1].0.material == MaterialTyp::Luft {
            return false;
        }
        !contains_bond(broken_bonds, (a, b))
    }

    /// Where the bond from the cell `(i, j)` to the right, for `d` zero, or
    /// upward, for `d` one, does not hold, no bond of its rank holds.
    proof fn lemma_no_bond_holds(
        &self,
        broken: Seq<((usize, usize), (usize, usize))>,
        i: int,
        j: int,
        d: int,
    )
        requires
            self.has_cell(i, j),
            d == 0 ==> !self.intact(broken, (i as usize, j as usize), (i as usize, (j + 1) as usize)),
            d == 1 ==> !self.intact(broken, (i as usize, j as usize), ((i + 1) as usize, j as usize)),
            0 <= d <= 1,
        ensures
            forall|a: (usize, usize), b: (usize, usize)|
                #[trigger] self.intact(broken, a, b) ==> self.impact_rank((a, b)) != 2 * (i * self.object_w
                    + j) + d,
    {
        assert forall|a: (usize, usize), b: (usize, usize)| #[trigger]
            self.intact(broken, a, b) implies self.impact_rank((a, b)) != 2 * (i * self.object_w + j)
            + d by {
            if self.impact_rank((a, b)) == 2 * (i * self.object_w + j) + d {
                self.lemma_bond_of_rank((a, b), i, j, d);
            }
        }
    }

    /// Gives the two bonds of the cell `(i, j)` their turn: merges the set of
    /// the cell with the set of its right neighbour, and with the set of its
    /// upper neighbour, where the bond to it holds.
    fn link_cell(
        &self,
        broken_bonds: &[((usize, usize), (usize, usize))],
        forest: &mut Forest,
        i: usize,
        j: usize,
    )
        requires
            self.shaped(),
            self.has_cell(i as int, j as int),
            old(forest).wf(),
            old(forest).len() == self.cells(),
            self.sound(broken_bonds@, old(forest).roots(), 2 * (i * self.object_w + j)),
            self.complete(broken_bonds@, old(forest).roots(), 2 * (i * self.object_w + j)),
        ensures
            final(forest).wf(),
            final(forest).len() == self.cells(),
            self.sound(broken_bonds@, final(forest).roots(), 2 * (i * self.object_w + j) + 2),
            self.complete(broken_bonds@, final(forest).roots(), 2 * (i * self.object_w + j) + 2),
    {
        let ghost broken = broken_bonds@;
        proof {
            lemma_cell_number(self.object_h as int, self.object_w as int, i as int, j as int);
            forest.lemma_roots();
        }
        let ghost rank = 2 * (i * self.object_w + j);
        let number: usize = i * self.object_w + j;
        if self.bond_holds(broken_bonds, (i, j), (i, j + 1)) {
            proof {
                self.lemma_numbering((i, (j + 1) as usize));
                self.lemma_union_keeps(broken, forest.roots(), (i, j), (i, (j + 1) as usize), rank);
            }
            forest.union(number, number + 1);
        } else {
            proof {
                self.lemma_no_bond_holds(broken, i as int, j as int, 0);
                self.lemma_skip_keeps(broken, forest.roots(), rank);
            }
        }
        proof {
            forest.lemma_roots();
        }
        if self.bond_holds(broken_bonds, (i, j), (i + 1, j)) {
            proof {
                self.lemma_numbering(((i + 1) as usize, j));
                assert((i + 1) * self.object_w + j == i * self.object_w + j + self.object_w)
                    by (nonlinear_arith);
                self.lemma_union_keeps(broken, forest.roots(), (i, j), ((i + 1) as usize, j), rank + 1);
            }
            forest.union(number, number + self.object_w);
        } else {
            proof {
                self.lemma_no_bond_holds(broken, i as int, j as int, 1);
                self.lemma_skip_keeps(broken, forest.roots(), rank + 1);
            }
        }
    }

    /// Merges the sets of the two cells of every bond that holds.
    fn link_cells(&self, broken_bonds: &[((usize, usize), (usize, usize))]) -> (forest: Forest)
        requires
            self.shaped(),
        ensures
            forest.wf(),
            forest.len() == self.cells(),
            self.sound(broken_bonds@, forest.roots(), 2 * self.cells()),
            self.complete(broken_bonds@, forest.roots(), 2 * self.cells()),
    {
        let ghost broken = broken_bonds@;
        let total: usize = self.object_h * self.object_w;
        let mut forest = Forest::new(total);
        proof {
            reveal(Object::sound);
            reveal(Object::complete);
            let roots = forest.roots();
            assert forall|x: int, y: int|
                0 <= x < self.cells() && 0 <= y < self.cells() && #[trigger] roots[x]
                    == #[trigger] roots[y] implies self.linked_below(
                broken,
                self.cell_numbered(x),
                self.cell_numbered(y),
                0,
            ) by {
                self.lemma_linked_refl(broken, self.cell_numbered(x), 0);
            }
            assert forall|a: (usize, usize), b: (usize, usize)| #[trigger]
                self.intact(broken, a, b) && self.impact_rank((a, b)) < 0 implies roots[self.number_of(a)]
                == roots[self.number_of(b)] by {
                self.lemma_numbering(a);
            }
            assert(2 * (0 * self.object_w) == 0) by (nonlinear_arith);
        }
        let mut i: usize = 0;
        while i < self.object_h
            invariant
                self.shaped(),
                broken == broken_bonds@,
                i <= self.object_h,
                forest.wf(),
                forest.len() == self.cells(),
                self.sound(broken, forest.roots(), 2 * (i * self.object_w)),
                self.complete(broken, forest.roots(), 2 * (i * self.object_w)),
            decreases self.object_h - i,
        {
            let mut j: usize = 0;
            while j < self.object_w
                invariant
                    self.shaped(),
                    broken == broken_bonds@,
                    i < self.object_h,
                    j <= self.object_w,
                    forest.wf(),
                    forest.len() == self.cells(),
                    self.sound(broken, forest.roots(), 2 * (i * self.object_w + j)),
                    self.complete(broken, forest.roots(), 2 * (i * self.object_w + j)),
                decreases self.object_w - j,
            {
                self.link_cell(broken_bonds, &mut forest, i, j);
                j += 1;
            }
            proof {
                assert(i * self.object_w + self.object_w == (i + 1) * self.object_w) by (nonlinear_arith);
            }
            i += 1;
        }
        forest
    }

    /// The pieces of the object once the bonds of `broken_bonds` are gone:
    /// the sets of cells that hold material and that the remaining bonds
    /// connect, found by merging the sets of the two cells of every bond
    /// that holds. A bond counts as broken where the list names it from its
    /// lower or left cell to its upper or right cell.
    pub fn find_fragments(&self, broken_bonds: &[((usize, usize), (usize, usize))]) -> (fragments: Vec<
        Vec<(usize, usize)>,
    >)
        requires
            self.shaped(),
        ensures
            self.is_fragmentation(broken_bonds@, views(fragments@)),
    {
        let ghost broken = broken_bonds@;
        let mut forest = self.link_cells(broken_bonds);
        let ghost roots = forest.roots();
        let total: usize = self.object_h * self.object_w;
        let mut slot: Vec<usize> = Vec::new();
        let mut n: usize = 0;
        while n < total
            invariant
                n <= total,
                slot.len() == n,
                forall|r: int| 0 <= r < n ==> #[trigger] slot[r] == total,
            decreases total - n,
        {
            slot.push(total);
            n += 1;
        }
        let mut fragments: Vec<Vec<(usize, usize)>> = Vec::new();
        let ghost mut frag_root: Seq<int> = Seq::empty();
        proof {
            reveal(Object::gathered);
            forest.lemma_roots();
            assert(0 * self.object_w == 0) by (nonlinear_arith);
        }
        let mut i: usize = 0;
        while i < self.object_h
            invariant
                self.shaped(),
                total == self.cells(),
                i <= self.object_h,
                forest.wf(),
                forest.len() == total,
                forest.roots() == roots,
                self.gathered(roots, slot@, frag_root, views(fragments@), i * self.object_w),
            decreases self.object_h - i,
        {
            let mut j: usize = 0;
            while j < self.object_w
                invariant
                    self.shaped(),
                    total == self.cells(),
                    i < self.object_h,
                    j <= self.object_w,
                    forest.wf(),
                    forest.len() == total,
                    forest.roots() == roots,
                    self.gathered(roots, slot@, frag_root, views(fragments@), i * self.object_w + j),
                decreases self.object_w - j,
            {
                proof {
                    lemma_cell_number(self.object_h as int, self.object_w as int, i as int, j as int);
                    self.lemma_numbering((i, j));
                    forest.lemma_roots();
                    self.lemma_gathered_sizes(
                        roots,
                        slot@,
                        frag_root,
                        views(fragments@),
                        i * self.object_w + j,
                    );
                }
                let number: usize = i * self.object_w + j;
                let ghost before = views(fragments@);
                if self.object_grid[i][j].0.material != MaterialTyp::Luft {
                    let root = forest.find(number);
                    if slot[root] == total {
                        proof {
                            self.lemma_gather_open(roots, slot@, frag_root, before, number as int);
                            frag_root = frag_root.push(root as int);
                        }
                        slot[root] = fragments.len();
                        let mut fresh: Vec<(usize, usize)> = Vec::new();
                        fresh.push((i, j));
                        fragments.push(fresh);
                        proof {
                            assert(views(fragments@) =~= before.push(seq![(i, j)]));
                        }
                    } else {
                        let s = slot[root];
                        proof {
                            self.lemma_gather_extend(roots, slot@, frag_root, before, number as int);
                        }
                        fragments[s].push((i, j));
                        proof {
                            assert(views(fragments@) =~= before.update(
                                s as int,
                                before[s as int].push((i, j)),
                            ));
                        }
                    }
                } else {
                    proof {
                        self.lemma_gather_skip(roots, slot@, frag_root, before, number as int);
                    }
                }
                j += 1;
            }
            proof {
                assert(i * self.object_w + self.object_w == (i + 1) * self.object_w) by (nonlinear_arith);
            }
            i += 1;
        }
        proof {
            self.lemma_gathered_is_fragmentation(broken, roots, slot@, frag_root, views(fragments@));
        }
        fragments
    }
}

} // verus!
