//! Which bonds of an object break, under an impact and under load.

use vstd::prelude::*;
use crate::grid::World;
use crate::material::{bond_strength, MaterialTyp, ParticleRef};
use crate::object::{lemma_cell_number, Object};
use crate::units::cell_index;

verus! {

/// How hard a surface is that an object lands on, in thousandths: terrain
/// passes an impact on in full, a free particle dampens it most.
pub open spec fn contact_hardness(contact: ParticleRef) -> u64 {
    match contact {
        ParticleRef::Static => 1000,
        ParticleRef::Free(_) => 400,
        ParticleRef::InObject(_, _, _) => 600,
    }
}

/// The sum of the hardness of all contacts.
pub open spec fn hardness_sum(collisions: Seq<ParticleRef>) -> int
    decreases collisions.len(),
{
    if collisions.len() == 0 {
        0
    } else {
        hardness_sum(collisions.drop_last()) + contact_hardness(collisions.last())
    }
}

/// The contacts without repetition: each reference once, where it stands
/// first.
pub open spec fn distinct(collisions: Seq<ParticleRef>) -> Seq<ParticleRef>
    decreases collisions.len(),
{
    if collisions.len() == 0 {
        Seq::empty()
    } else if collisions.drop_last().contains(collisions.last()) {
        distinct(collisions.drop_last())
    } else {
        distinct(collisions.drop_last()).push(collisions.last())
    }
}

/// The dampening of an impact: the mean hardness of the distinct contacts,
/// in thousandths and cut off, and full hardness where there is no contact.
pub open spec fn dampening_factor(collisions: Seq<ParticleRef>) -> int {
    if collisions.len() == 0 {
        1000
    } else {
        hardness_sum(distinct(collisions)) / (distinct(collisions).len() as int)
    }
}

/// The distinct contacts hold what the contacts hold, each once, and are
/// no more than they.
pub proof fn lemma_distinct(collisions: Seq<ParticleRef>)
    ensures
        forall|r: ParticleRef| distinct(collisions).contains(r) <==> collisions.contains(r),
        distinct(collisions).no_duplicates(),
        distinct(collisions).len() <= collisions.len(),
        collisions.len() > 0 ==> distinct(collisions).len() > 0,
    decreases collisions.len(),
{
    if collisions.len() > 0 {
        let rest = collisions.drop_last();
        let last = collisions.last();
        lemma_distinct(rest);
        assert forall|r: ParticleRef| distinct(collisions).contains(r) <==> collisions.contains(r) by {
            if collisions.contains(r) {
                let k = choose|k: int| 0 <= k < collisions.len() && collisions[k] == r;
                if k < rest.len() {
                    assert(rest[k] == r);
                    assert(rest.contains(r));
                    assert(distinct(rest).contains(r));
                    if !rest.contains(last) {
                        let m = choose|m: int| 0 <= m < distinct(rest).len() && distinct(rest)[m] == r;
                        assert(distinct(collisions)[m] == r);
                    }
                } else {
                    if !rest.contains(last) {
                        assert(distinct(collisions)[distinct(rest).len() as int] == r);
                    }
                }
            }
            if distinct(collisions).contains(r) {
                let m = choose|m: int| 0 <= m < distinct(collisions).len() && distinct(collisions)[m] == r;
                if m < distinct(rest).len() {
                    assert(distinct(rest)[m] == r);
                    assert(distinct(rest).contains(r));
                    assert(rest.contains(r));
                    let k = choose|k: int| 0 <= k < rest.len() && rest[k] == r;
                    assert(collisions[k] == r);
                } else {
                    assert(!rest.contains(last));
                    assert(r == last);
                    assert(collisions[collisions.len() - 1] == r);
                }
            }
        }
        if rest.contains(last) {
            assert(rest.len() > 0);
        }
    }
}

/// The sum of the hardness of contacts is at most full hardness for each.
pub proof fn lemma_hardness_sum_bounded(collisions: Seq<ParticleRef>)
    ensures
        0 <= hardness_sum(collisions) <= 1000 * collisions.len(),
    decreases collisions.len(),
{
    if collisions.len() > 0 {
        lemma_hardness_sum_bounded(collisions.drop_last());
    }
}

/// Whether a force, dampened and thinned out with height, exceeds a bond's
/// strength in row `row`: the force times the dampening, over the number of
/// rows up to and with `row`, is more than the strength. All three are
/// counted in thousandths, which the factor 1000 accounts for.
pub open spec fn breaks(force: int, dampening: int, row: int, strength: int) -> bool {
    force * dampening > strength * 1000 * (row + 1)
}

/// Whether `a * b > limit`, for a positive `b`, read off a division.
proof fn lemma_product_exceeds(a: int, b: int, limit: int)
    requires
        0 <= a,
        0 < b,
        0 <= limit,
    ensures
        a * b > limit <==> a > limit / b,
{
    let q = limit / b;
    vstd::arithmetic::div_mod::lemma_fundamental_div_mod(limit, b);
    vstd::arithmetic::div_mod::lemma_mod_bound(limit, b);
    if a > q {
        assert(a * b >= (q + 1) * b) by (nonlinear_arith)
            requires
                a >= q + 1,
                b > 0,
        ;
        assert((q + 1) * b == b * q + b) by (nonlinear_arith);
    } else {
        assert(a * b <= q * b) by (nonlinear_arith)
            requires
                a <= q,
                b > 0,
        ;
        assert(q * b == b * q) by (nonlinear_arith);
    }
}

/// Two lists that hold the same entries, each in the strictly rising order
/// of one rank, are the same list.
pub proof fn lemma_ranked_lists_equal<A>(a: Seq<A>, b: Seq<A>, rank: spec_fn(A) -> int)
    requires
        forall|p: int, q: int| 0 <= p < q < a.len() ==> rank(#[trigger] a[p]) < rank(#[trigger] a[q]),
        forall|p: int, q: int| 0 <= p < q < b.len() ==> rank(#[trigger] b[p]) < rank(#[trigger] b[q]),
        forall|bond: A| a.contains(bond) <==> b.contains(bond),
    ensures
        a == b,
    decreases a.len(),
{
    if a.len() == 0 {
        if b.len() > 0 {
            assert(b.contains(b[0]));
        }
        assert(a =~= b);
    } else {
        let x = a.last();
        assert(a.contains(x));
        let t = choose|t: int| 0 <= t < b.len() && b[t] == x;
        let y = b.last();
        assert(b.contains(y));
        let s = choose|s: int| 0 <= s < a.len() && a[s] == y;
        if s < a.len() - 1 {
            assert(rank(a[s]) < rank(a[a.len() - 1]));
        }
        if t < b.len() - 1 {
            assert(rank(b[t]) < rank(b[b.len() - 1]));
        }
        assert(x == y);
        let a1 = a.drop_last();
        let b1 = b.drop_last();
        assert forall|bond: A| a1.contains(bond) <==> b1.contains(bond) by {
            if a1.contains(bond) {
                let p = choose|p: int| 0 <= p < a1.len() && a1[p] == bond;
                assert(a[p] == bond);
                assert(rank(a[p]) < rank(a[a.len() - 1]));
                assert(a.contains(bond));
                let u = choose|u: int| 0 <= u < b.len() && b[u] == bond;
                assert(u < b.len() - 1);
                assert(b1[u] == bond);
            }
            if b1.contains(bond) {
                let p = choose|p: int| 0 <= p < b1.len() && b1[p] == bond;
                assert(b[p] == bond);
                assert(rank(b[p]) < rank(b[b.len() - 1]));
                assert(b.contains(bond));
                let u = choose|u: int| 0 <= u < a.len() && a[u] == bond;
                assert(u < a.len() - 1);
                assert(a1[u] == bond);
            }
        }
        assert forall|p: int, q: int| 0 <= p < q < a1.len() implies rank(#[trigger] a1[p]) < rank(
            #[trigger] a1[q],
        ) by {
            assert(rank(a[p]) < rank(a[q]));
        }
        assert forall|p: int, q: int| 0 <= p < q < b1.len() implies rank(#[trigger] b1[p]) < rank(
            #[trigger] b1[q],
        ) by {
            assert(rank(b[p]) < rank(b[q]));
        }
        lemma_ranked_lists_equal(a1, b1, rank);
        assert(a =~= a1.push(x));
        assert(b =~= b1.push(y));
    }
}

/// Whether `contact` is among `seen`.
fn holds_contact(seen: &Vec<ParticleRef>, contact: ParticleRef) -> (found: bool)
    ensures
        found == seen@.contains(contact),
{
    let mut k: usize = 0;
    while k < seen.len()
        invariant
            k <= seen.len(),
            forall|n: int| 0 <= n < k ==> seen@[n] != contact,
        decreases seen.len() - k,
    {
        if seen[k] == contact {
            assert(seen@[k as int] == contact);
            return true;
        }
        k += 1;
    }
    false
}

/// Computes [`breaks`].
fn exceeds(force: u128, dampening: u64, row: usize, strength: u64) -> (b: bool)
    requires
        row < u32::MAX,
    ensures
        b == breaks(force as int, dampening as int, row as int, strength as int),
{
    if dampening == 0 {
        assert(force * dampening == 0) by (nonlinear_arith)
            requires
                dampening == 0,
        ;
        assert(strength * 1000 * (row + 1) >= 0) by (nonlinear_arith)
            requires
                strength >= 0,
                row >= 0,
        ;
        return false;
    }
    assert(strength * 1000 * (row + 1) <= 0xffff_ffff_ffff_ffff * 1000 * 0xffff_ffff) by (nonlinear_arith)
        requires
            0 <= strength <= 0xffff_ffff_ffff_ffff,
            0 <= row < 0xffff_ffff,
    ;
    assert(strength * 1000 * (row + 1) >= 0) by (nonlinear_arith)
        requires
            strength >= 0,
            row >= 0,
    ;
    assert(strength * 1000 <= 0xffff_ffff_ffff_ffff * 1000) by (nonlinear_arith)
        requires
            0 <= strength <= 0xffff_ffff_ffff_ffff,
    ;
    let limit: u128 = (strength as u128) * 1000 * (row as u128 + 1);
    proof {
        lemma_product_exceeds(force as int, dampening as int, limit as int);
    }
    force > limit / (dampening as u128)
}

impl Object {
    /// Computes [`bond_strength`].
    pub fn calc_bond_strength(mat_a: MaterialTyp, mat_b: MaterialTyp) -> (strength: u64)
        ensures
            strength == bond_strength(mat_a, mat_b),
    {
        let strength_a = mat_a.binding_strength();
        let strength_b = mat_b.binding_strength();
        if mat_a == mat_b {
            strength_a
        } else if strength_a <= strength_b {
            strength_a / 2
        } else {
            strength_b / 2
        }
    }

    /// Computes [`dampening_factor`].
    pub fn calc_dampening_factor(collisions: &[ParticleRef]) -> (factor: u64)
        ensures
            factor == dampening_factor(collisions@),
    {
        if collisions.len() == 0 {
            return 1000;
        }
        let mut seen: Vec<ParticleRef> = Vec::new();
        let mut sum: u128 = 0;
        let mut k: usize = 0;
        while k < collisions.len()
            invariant
                k <= collisions.len(),
                seen@ == distinct(collisions@.take(k as int)),
                sum == hardness_sum(seen@),
            decreases collisions.len() - k,
        {
            let contact = collisions[k];
            proof {
                assert(collisions@.take(k + 1).drop_last() =~= collisions@.take(k as int));
                assert(collisions@.take(k + 1).last() == contact);
                lemma_distinct(collisions@.take(k as int));
                lemma_distinct(collisions@.take(k + 1));
                lemma_hardness_sum_bounded(distinct(collisions@.take(k + 1)));
            }
            if !holds_contact(&seen, contact) {
                let ghost before = seen@;
                seen.push(contact);
                proof {
                    assert(seen@.drop_last() =~= before);
                }
                sum = sum + match contact {
                    ParticleRef::Static => 1000,
                    ParticleRef::Free(_) => 400,
                    ParticleRef::InObject(_, _, _) => 600,
                };
            }
            k += 1;
        }
        proof {
            assert(collisions@.take(collisions.len() as int) =~= collisions@);
            lemma_distinct(collisions@);
            lemma_hardness_sum_bounded(seen@);
            let n = seen.len() as int;
            vstd::arithmetic::div_mod::lemma_fundamental_div_mod(sum as int, n);
            vstd::arithmetic::div_mod::lemma_mod_bound(sum as int, n);
            assert(sum as int / n <= 1000) by (nonlinear_arith)
                requires
                    0 <= sum <= 1000 * n,
                    n > 0,
                    sum == n * (sum as int / n) + sum as int % n,
                    0 <= sum as int % n,
            ;
        }
        (sum / (seen.len() as u128)) as u64
    }

    /// Whether `a` and `b` are two cells that hold material, `b` the right
    /// or the upper neighbour of `a`.
    pub open spec fn is_bond(&self, a: (usize, usize), b: (usize, usize)) -> bool {
        &&& self.is_filled(a.0 as int, a.1 as int)
        &&& self.is_filled(b.0 as int, b.1 as int)
        &&& (a.0 == b.0 && a.1 + 1 == b.1) || (a.0 + 1 == b.0 && a.1 == b.1)
    }

    /// The strength of the bond between two cells.
    pub open spec fn strength_between(&self, a: (usize, usize), b: (usize, usize)) -> u64 {
        bond_strength(self.material_at(a.0 as int, a.1 as int), self.material_at(b.0 as int, b.1 as int))
    }

    /// Whether an impact breaks a bond: the force that arrives in the row of
    /// the bond's first cell exceeds the bond's strength.
    pub open spec fn impact_breaks(
        &self,
        impact_force: u128,
        dampening_factor: u64,
        bond: ((usize, usize), (usize, usize)),
    ) -> bool {
        &&& self.is_bond(bond.0, bond.1)
        &&& breaks(
            impact_force as int,
            dampening_factor as int,
            bond.0.0 as int,
            self.strength_between(bond.0, bond.1) as int,
        )
    }

    /// The place of a bond in the order in which an impact is followed
    /// through the object: cell by cell, row by row from the bottom left,
    /// and at each cell the bond to the right before the bond upward.
    pub open spec fn impact_rank(&self, bond: ((usize, usize), (usize, usize))) -> int {
        2 * (bond.0.0 * self.object_w + bond.0.1) + if bond.1.0 == bond.0.0 {
            0int
        } else {
            1int
        }
    }

    /// `broken` lists the bonds that an impact breaks, each once, in the
    /// order of their ranks.
    pub open spec fn is_impact_damage(
        &self,
        impact_force: u128,
        dampening_factor: u64,
        broken: Seq<((usize, usize), (usize, usize))>,
    ) -> bool {
        &&& forall|bond: ((usize, usize), (usize, usize))|
            broken.contains(bond) <==> self.impact_breaks(impact_force, dampening_factor, bond)
        &&& forall|p: int, q: int|
            0 <= p < q < broken.len() ==> self.impact_rank(#[trigger] broken[p]) < self.impact_rank(
                #[trigger] broken[q],
            )
    }

    /// Computes [`Object::impact_breaks`] for the bond from the cell `a` of
    /// the object to `b`.
    fn impact_breaks_bond(
        &self,
        impact_force: u128,
        dampening_factor: u64,
        a: (usize, usize),
        b: (usize, usize),
    ) -> (hit: bool)
        requires
            self.shaped(),
            self.has_cell(a.0 as int, a.1 as int),
            (a.0 == b.0 && a.1 + 1 == b.1) || (a.0 + 1 == b.0 && a.1 == b.1),
        ensures
            hit == self.impact_breaks(impact_force, dampening_factor, (a, b)),
    {
        if b.0 >= self.object_h || b.1 >= self.object_w {
            return false;
        }
        let mat_a = self.object_grid[a.0][a.1].0.material;
        let mat_b = self.object_grid[b.0][b.1].0.material;
        if mat_a == MaterialTyp::Luft || mat_b == MaterialTyp::Luft {
            return false;
        }
        proof {
            lemma_cell_number(self.object_h as int, self.object_w as int, a.0 as int, a.1 as int);
        }
        let strength = Self::calc_bond_strength(mat_a, mat_b);
        exceeds(impact_force, dampening_factor, a.0, strength)
    }

    /// The bonds that an impact breaks, in the order of
    /// [`Object::impact_rank`]. The force at a cell is the impact force times
    /// the dampening, divided by the number of rows from the bottom up to the
    /// cell's row.
    pub fn check_fracture(&self, impact_force: u128, dampening_factor: u64) -> (broken_bonds: Vec<
        ((usize, usize), (usize, usize)),
    >)
        requires
            self.shaped(),
        ensures
            self.is_impact_damage(impact_force, dampening_factor, broken_bonds@),
    {
        let mut broken_bonds: Vec<((usize, usize), (usize, usize))> = Vec::new();
        let mut i: usize = 0;
        while i < self.object_h
            invariant
                self.shaped(),
                i <= self.object_h,
                self.impact_found(impact_force, dampening_factor, broken_bonds@, 2 * (i * self.object_w)),
            decreases self.object_h - i,
        {
            let mut j: usize = 0;
            while j < self.object_w
                invariant
                    self.shaped(),
                    i < self.object_h,
                    j <= self.object_w,
                    self.impact_found(
                        impact_force,
                        dampening_factor,
                        broken_bonds@,
                        2 * (i * self.object_w + j),
                    ),
                decreases self.object_w - j,
            {
                proof {
                    lemma_cell_number(self.object_h as int, self.object_w as int, i as int, j as int);
                }
                let ghost rank = 2 * (i * self.object_w + j);
                let right = ((i, j), (i, j + 1));
                let up = ((i, j), (i + 1, j));
                if self.impact_breaks_bond(impact_force, dampening_factor, right.0, right.1) {
                    proof {
                        self.lemma_impact_found_push(
                            impact_force,
                            dampening_factor,
                            broken_bonds@,
                            right,
                            rank,
                        );
                    }
                    broken_bonds.push(right);
                } else {
                    proof {
                        assert forall|bond: ((usize, usize), (usize, usize))|
                            self.impact_breaks(impact_force, dampening_factor, bond) implies self.impact_rank(
                            bond,
                        ) != rank by {
                            if self.impact_rank(bond) == rank {
                                self.lemma_bond_of_rank(bond, i as int, j as int, 0);
                            }
                        }
                        self.lemma_impact_found_skip(impact_force, dampening_factor, broken_bonds@, rank);
                    }
                }
                if self.impact_breaks_bond(impact_force, dampening_factor, up.0, up.1) {
                    proof {
                        self.lemma_impact_found_push(
                            impact_force,
                            dampening_factor,
                            broken_bonds@,
                            up,
                            rank + 1,
                        );
                    }
                    broken_bonds.push(up);
                } else {
                    proof {
                        assert forall|bond: ((usize, usize), (usize, usize))|
                            self.impact_breaks(impact_force, dampening_factor, bond) implies self.impact_rank(
                            bond,
                        ) != rank + 1 by {
                            if self.impact_rank(bond) == rank + 1 {
                                self.lemma_bond_of_rank(bond, i as int, j as int, 1);
                            }
                        }
                        self.lemma_impact_found_skip(
                            impact_force,
                            dampening_factor,
                            broken_bonds@,
                            rank + 1,
                        );
                    }
                }
                j += 1;
            }
            proof {
                assert(i * self.object_w + self.object_w == (i + 1) * self.object_w) by (nonlinear_arith);
            }
            i += 1;
        }
        proof {
            assert forall|bond: ((usize, usize), (usize, usize))|
                self.impact_breaks(impact_force, dampening_factor, bond) implies self.impact_rank(bond) < 2
                * (self.object_h * self.object_w) by {
                lemma_cell_number(
                    self.object_h as int,
                    self.object_w as int,
                    bond.0.0 as int,
                    bond.0.1 as int,
                );
            }
        }
        broken_bonds
    }

    /// `found` holds exactly the bonds that the impact breaks and whose rank
    /// is below `rank`, in the order of their ranks.
    pub open spec fn impact_found(
        &self,
        impact_force: u128,
        dampening_factor: u64,
        found: Seq<((usize, usize), (usize, usize))>,
        rank: int,
    ) -> bool {
        &&& forall|bond: ((usize, usize), (usize, usize))|
            found.contains(bond) <==> self.impact_breaks(impact_force, dampening_factor, bond)
                && self.impact_rank(bond) < rank
        &&& forall|p: int, q: int|
            0 <= p < q < found.len() ==> self.impact_rank(#[trigger] found[p]) < self.impact_rank(
                #[trigger] found[q],
            )
    }

    /// A bond is known by its rank.
    pub proof fn lemma_impact_rank_unique(
        &self,
        a: ((usize, usize), (usize, usize)),
        b: ((usize, usize), (usize, usize)),
    )
        requires
            self.is_bond(a.0, a.1),
            self.is_bond(b.0, b.1),
            self.impact_rank(a) == self.impact_rank(b),
        ensures
            a == b,
    {
        let w = self.object_w as int;
        lemma_cell_number(self.object_h as int, w, a.0.0 as int, a.0.1 as int);
        lemma_cell_number(self.object_h as int, w, b.0.0 as int, b.0.1 as int);
        assert(a.0.0 * w + a.0.1 == b.0.0 * w + b.0.1);
    }

    /// A bond whose rank is twice the number of the cell `(i, j)` leads from
    /// that cell to the right, and one whose rank is one more leads from it
    /// upward.
    pub proof fn lemma_bond_of_rank(&self, bond: ((usize, usize), (usize, usize)), i: int, j: int, d: int)
        requires
            self.is_bond(bond.0, bond.1),
            self.has_cell(i, j),
            0 <= d <= 1,
            self.impact_rank(bond) == 2 * (i * self.object_w + j) + d,
        ensures
            bond.0 == (i as usize, j as usize),
            d == 0 ==> bond.1 == (i as usize, (j + 1) as usize),
            d == 1 ==> bond.1 == ((i + 1) as usize, j as usize),
    {
        let w = self.object_w as int;
        lemma_cell_number(self.object_h as int, w, bond.0.0 as int, bond.0.1 as int);
        lemma_cell_number(self.object_h as int, w, i, j);
        assert(bond.0.0 * w + bond.0.1 == i * w + j);
    }

    /// Where no bond of rank `rank` breaks, what is found below `rank` is what
    /// is found below the next rank.
    proof fn lemma_impact_found_skip(
        &self,
        impact_force: u128,
        dampening_factor: u64,
        found: Seq<((usize, usize), (usize, usize))>,
        rank: int,
    )
        requires
            self.impact_found(impact_force, dampening_factor, found, rank),
            forall|bond: ((usize, usize), (usize, usize))|
                self.impact_breaks(impact_force, dampening_factor, bond) ==> self.impact_rank(bond) != rank,
        ensures
            self.impact_found(impact_force, dampening_factor, found, rank + 1),
    {
    }

    /// A breaking bond of rank `rank`, appended to what is found below
    /// `rank`, gives what is found below the next rank.
    proof fn lemma_impact_found_push(
        &self,
        impact_force: u128,
        dampening_factor: u64,
        found: Seq<((usize, usize), (usize, usize))>,
        bond: ((usize, usize), (usize, usize)),
        rank: int,
    )
        requires
            self.impact_found(impact_force, dampening_factor, found, rank),
            self.impact_breaks(impact_force, dampening_factor, bond),
            self.impact_rank(bond) == rank,
        ensures
            self.impact_found(impact_force, dampening_factor, found.push(bond), rank + 1),
            found.push(bond).last() == bond,
    {
        let after = found.push(bond);
        assert forall|other: ((usize, usize), (usize, usize))|
            after.contains(other) <==> self.impact_breaks(impact_force, dampening_factor, other)
                && self.impact_rank(other) < rank + 1 by {
            if after.contains(other) {
                let k = choose|k: int| 0 <= k < after.len() && after[k] == other;
                if k < found.len() {
                    assert(found[k] == other);
                    assert(found.contains(other));
                }
            }
            if self.impact_breaks(impact_force, dampening_factor, other) && self.impact_rank(other) < rank
                + 1 {
                if self.impact_rank(other) == rank {
                    self.lemma_impact_rank_unique(other, bond);
                    assert(after[found.len() as int] == other);
                } else {
                    assert(found.contains(other));
                    let k = choose|k: int| 0 <= k < found.len() && found[k] == other;
                    assert(after[k] == other);
                }
            }
        }
        assert forall|p: int, q: int| 0 <= p < q < after.len() implies self.impact_rank(
            #[trigger] after[p],
        ) < self.impact_rank(#[trigger] after[q]) by {
            if q == found.len() {
                assert(found.contains(found[p]));
            }
        }
    }

    /// The highest row below `below` in which column `j` holds material, and
    /// `-1` where it holds none there.
    pub open spec fn top_filled(&self, j: int, below: int) -> int
        decreases below,
    {
        if below <= 0 {
            -1
        } else if self.is_filled(below - 1, j) {
            below - 1
        } else {
            self.top_filled(j, below - 1)
        }
    }

    /// The load that the world puts on column `j` of the object: the mass of
    /// all world cells above the topmost cell of that column that holds
    /// material. Nothing, where the column holds no material or that cell
    /// lies off the grid.
    pub open spec fn column_pressure(&self, world: &World, j: int) -> int {
        let top = self.top_filled(j, self.object_h as int);
        let x = cell_index(self.particle(top, j).position[0]);
        let y = cell_index(self.particle(top, j).position[1]);
        if top >= 0 && world.has_cell(x, y) {
            world.load(x, y + 1)
        } else {
            0
        }
    }

    /// The topmost row in which column `j` holds material.
    pub fn top_of_column(&self, j: usize) -> (top: Option<usize>)
        requires
            self.shaped(),
            j < self.object_w,
        ensures
            top is None <==> self.top_filled(j as int, self.object_h as int) == -1,
            top matches Some(i) ==> i == self.top_filled(j as int, self.object_h as int) && i < self.object_h,
    {
        let mut i: usize = self.object_h;
        while i > 0
            invariant
                self.shaped(),
                j < self.object_w,
                i <= self.object_h,
                self.top_filled(j as int, self.object_h as int) == self.top_filled(j as int, i as int),
            decreases i,
        {
            i -= 1;
            if self.object_grid[i][j].0.material != MaterialTyp::Luft {
                return Some(i);
            }
        }
        None
    }

    /// Computes [`Object::column_pressure`] for every column.
    pub fn calc_pressure_per_column(&self, world: &World) -> (pressure_per_col: Vec<u128>)
        requires
            self.shaped(),
            world.wf(),
        ensures
            pressure_per_col.len() == self.object_w,
            forall|j: int|
                0 <= j < self.object_w ==> #[trigger] pressure_per_col[j] == self.column_pressure(world, j),
    {
        let mut pressure_per_col: Vec<u128> = Vec::new();
        let mut j: usize = 0;
        while j < self.object_w
            invariant
                self.shaped(),
                world.wf(),
                j <= self.object_w,
                pressure_per_col.len() == j,
                forall|c: int| 0 <= c < j ==> #[trigger] pressure_per_col[c] == self.column_pressure(world, c),
            decreases self.object_w - j,
        {
            let mut total_pressure: u128 = 0;
            if let Some(top) = self.top_of_column(j) {
                if let Some((column, row)) = world.locate(self.object_grid[top][j].0.position) {
                    let mut y: usize = row + 1;
                    proof {
                        world.lemma_load_bounded(column as int, y as int);
                    }
                    while y < world.height
                        invariant
                            world.wf(),
                            column < world.width,
                            row + 1 <= y <= world.height,
                            total_pressure + world.load(column as int, y as int) == world.load(
                                column as int,
                                row + 1,
                            ),
                            world.load(column as int, row + 1) <= u128::MAX,
                        decreases world.height - y,
                    {
                        proof {
                            world.lemma_load_nonnegative(column as int, y + 1);
                            assert(world.has_cell(column as int, y as int));
                        }
                        total_pressure = total_pressure + world.grid[y][column].1 as u128;
                        y += 1;
                    }
                }
            }
            pressure_per_col.push(total_pressure);
            j += 1;
        }
        pressure_per_col
    }

    /// The mass of the object's own cells above row `i` in column `j`.
    pub open spec fn weight_above(&self, i: int, j: int) -> int
        decreases self.object_h - i,
    {
        if i + 1 >= self.object_h {
            0
        } else {
            self.material_at(i + 1, j).spec_density() + self.weight_above(i + 1, j)
        }
    }

    /// The load on the cell in row `i`, column `j`: what the world puts on
    /// the column, and the object's own cells above.
    pub open spec fn bearing(&self, world: &World, i: int, j: int) -> int {
        self.column_pressure(world, j) + self.weight_above(i, j)
    }

    /// The object's own cells above a cell weigh at most as much as so many
    /// cells of the heaviest material.
    pub proof fn lemma_weight_above_bounded(&self, i: int, j: int)
        requires
            0 <= i,
        ensures
            0 <= self.weight_above(i, j),
            i < self.object_h ==> self.weight_above(i, j) <= (self.object_h - 1 - i) * 8000,
            i >= self.object_h ==> self.weight_above(i, j) == 0,
        decreases self.object_h - i,
    {
        if i + 1 < self.object_h {
            self.lemma_weight_above_bounded(i + 1, j);
        }
    }

    /// Whether load breaks a bond. The load on a cell presses on its bond to
    /// the cell below and on its bond to the cell at its right: a bond breaks
    /// where that load exceeds its strength.
    pub open spec fn load_breaks(&self, world: &World, bond: ((usize, usize), (usize, usize))) -> bool {
        &&& self.is_bond(bond.0, bond.1)
        &&& if bond.0.0 == bond.1.0 {
            self.bearing(world, bond.0.0 as int, bond.0.1 as int) > self.strength_between(bond.0, bond.1)
        } else {
            self.bearing(world, bond.1.0 as int, bond.1.1 as int) > self.strength_between(bond.0, bond.1)
        }
    }

    /// The place of a bond in the order in which load is followed through
    /// the object: column by column from the left, in each column cell by
    /// cell from the top, and at each cell the bond downward before the bond
    /// to the right.
    pub open spec fn load_rank(&self, bond: ((usize, usize), (usize, usize))) -> int {
        if bond.0.0 == bond.1.0 {
            2 * (bond.0.1 * self.object_h + (self.object_h - 1 - bond.0.0)) + 1
        } else {
            2 * (bond.1.1 * self.object_h + (self.object_h - 1 - bond.1.0))
        }
    }

    /// `broken` lists the bonds that load breaks, each once, in the order of
    /// their ranks.
    pub open spec fn is_load_damage(
        &self,
        world: &World,
        broken: Seq<((usize, usize), (usize, usize))>,
    ) -> bool {
        &&& forall|bond: ((usize, usize), (usize, usize))|
            broken.contains(bond) <==> self.load_breaks(world, bond)
        &&& forall|p: int, q: int|
            0 <= p < q < broken.len() ==> self.load_rank(#[trigger] broken[p]) < self.load_rank(
                #[trigger] broken[q],
            )
    }

    /// `found` holds exactly the bonds that load breaks and whose rank is
    /// below `rank`, in the order of their ranks.
    pub open spec fn load_found(
        &self,
        world: &World,
        found: Seq<((usize, usize), (usize, usize))>,
        rank: int,
    ) -> bool {
        &&& forall|bond: ((usize, usize), (usize, usize))|
            found.contains(bond) <==> self.load_breaks(world, bond) && self.load_rank(bond) < rank
        &&& forall|p: int, q: int|
            0 <= p < q < found.len() ==> self.load_rank(#[trigger] found[p]) < self.load_rank(
                #[trigger] found[q],
            )
    }

    /// A bond whose rank is twice the place of the cell `(i, j)` leads from
    /// the cell below to that cell, and one whose rank is one more leads from
    /// that cell to the right.
    pub proof fn lemma_bond_of_load_rank(
        &self,
        bond: ((usize, usize), (usize, usize)),
        i: int,
        j: int,
        d: int,
    )
        requires
            self.is_bond(bond.0, bond.1),
            self.has_cell(i, j),
            0 <= d <= 1,
            self.load_rank(bond) == 2 * (j * self.object_h + (self.object_h - 1 - i)) + d,
        ensures
            d == 0 ==> i > 0 && bond == (((i - 1) as usize, j as usize), (i as usize, j as usize)),
            d == 1 ==> bond == ((i as usize, j as usize), (i as usize, (j + 1) as usize)),
    {
        let h = self.object_h as int;
        let w = self.object_w as int;
        lemma_cell_number(w, h, j, h - 1 - i);
        if bond.0.0 == bond.1.0 {
            lemma_cell_number(w, h, bond.0.1 as int, h - 1 - bond.0.0);
            assert(bond.0.1 * h + (h - 1 - bond.0.0) == j * h + (h - 1 - i));
        } else {
            lemma_cell_number(w, h, bond.1.1 as int, h - 1 - bond.1.0);
            assert(bond.1.1 * h + (h - 1 - bond.1.0) == j * h + (h - 1 - i));
        }
    }

    /// Where no bond of rank `rank` breaks, what is found below `rank` is what
    /// is found below the next rank.
    proof fn lemma_load_found_skip(
        &self,
        world: &World,
        found: Seq<((usize, usize), (usize, usize))>,
        rank: int,
    )
        requires
            self.load_found(world, found, rank),
            forall|bond: ((usize, usize), (usize, usize))|
                self.load_breaks(world, bond) ==> self.load_rank(bond) != rank,
        ensures
            self.load_found(world, found, rank + 1),
    {
    }

    /// A breaking bond of rank `rank`, the only bond of that rank, appended
    /// to what is found below `rank`, gives what is found below the next rank.
    proof fn lemma_load_found_push(
        &self,
        world: &World,
        found: Seq<((usize, usize), (usize, usize))>,
        bond: ((usize, usize), (usize, usize)),
        rank: int,
    )
        requires
            self.load_found(world, found, rank),
            self.load_breaks(world, bond),
            self.load_rank(bond) == rank,
            forall|other: ((usize, usize), (usize, usize))|
                self.load_breaks(world, other) && self.load_rank(other) == rank ==> other == bond,
        ensures
            self.load_found(world, found.push(bond), rank + 1),
    {
        let after = found.push(bond);
        assert forall|other: ((usize, usize), (usize, usize))|
            after.contains(other) <==> self.load_breaks(world, other) && self.load_rank(other) < rank
                + 1 by {
            if after.contains(other) {
                let k = choose|k: int| 0 <= k < after.len() && after[k] == other;
                if k < found.len() {
                    assert(found[k] == other);
                    assert(found.contains(other));
                }
            }
            if self.load_breaks(world, other) && self.load_rank(other) < rank + 1 {
                if self.load_rank(other) == rank {
                    assert(after[found.len() as int] == other);
                } else {
                    assert(found.contains(other));
                    let k = choose|k: int| 0 <= k < found.len() && found[k] == other;
                    assert(after[k] == other);
                }
            }
        }
        assert forall|p: int, q: int| 0 <= p < q < after.len() implies self.load_rank(#[trigger] after[p])
            < self.load_rank(#[trigger] after[q]) by {
            if q == found.len() {
                assert(found.contains(found[p]));
            }
        }
    }

    /// Computes [`Object::load_breaks`] for the bond from `a` to `b`, where
    /// `load` is the load on the cell of the two that bears it.
    fn load_breaks_bond(&self, world: &World, load: u128, a: (usize, usize), b: (usize, usize)) -> (hit:
        bool)
        requires
            self.shaped(),
            self.has_cell(a.0 as int, a.1 as int),
            (a.0 == b.0 && a.1 + 1 == b.1) || (a.0 + 1 == b.0 && a.1 == b.1),
            a.0 == b.0 ==> load == self.bearing(world, a.0 as int, a.1 as int),
            a.0 != b.0 ==> load == self.bearing(world, b.0 as int, b.1 as int),
        ensures
            hit == self.load_breaks(world, (a, b)),
    {
        if b.0 >= self.object_h || b.1 >= self.object_w {
            return false;
        }
        let mat_a = self.object_grid[a.0][a.1].0.material;
        let mat_b = self.object_grid[b.0][b.1].0.material;
        if mat_a == MaterialTyp::Luft || mat_b == MaterialTyp::Luft {
            return false;
        }
        load > Self::calc_bond_strength(mat_a, mat_b) as u128
    }

    /// The bonds that load breaks, in the order of [`Object::load_rank`].
    /// The load on a cell is what the world puts on its column, and the mass
    /// of the object's own cells above it.
    pub fn check_pressure_fracture(&self, world: &World) -> (broken_bonds: Vec<
        ((usize, usize), (usize, usize)),
    >)
        requires
            self.shaped(),
            world.wf(),
        ensures
            self.is_load_damage(world, broken_bonds@),
    {
        let mut broken_bonds: Vec<((usize, usize), (usize, usize))> = Vec::new();
        let external_pressure = self.calc_pressure_per_column(world);
        let mut j: usize = 0;
        while j < self.object_w
            invariant
                self.shaped(),
                world.wf(),
                j <= self.object_w,
                external_pressure.len() == self.object_w,
                forall|c: int|
                    0 <= c < self.object_w ==> #[trigger] external_pressure[c] == self.column_pressure(
                        world,
                        c,
                    ),
                self.load_found(world, broken_bonds@, 2 * (j * self.object_h)),
            decreases self.object_w - j,
        {
            let mut accumulated_pressure: u128 = external_pressure[j];
            let mut i: usize = self.object_h;
            proof {
                self.lemma_weight_above_bounded(i as int, j as int);
            }
            while i > 0
                invariant
                    self.shaped(),
                    world.wf(),
                    j < self.object_w,
                    i <= self.object_h,
                    i > 0 ==> accumulated_pressure == self.bearing(world, i - 1, j as int),
                    self.load_found(world, broken_bonds@, 2 * (j * self.object_h + (self.object_h - i))),
                decreases i,
            {
                i -= 1;
                proof {
                    lemma_cell_number(
                        self.object_w as int,
                        self.object_h as int,
                        j as int,
                        self.object_h - 1 - i,
                    );
                    lemma_cell_number(self.object_h as int, self.object_w as int, i as int, j as int);
                }
                let ghost rank = 2 * (j * self.object_h + (self.object_h - 1 - i));
                if i > 0 && self.load_breaks_bond(world, accumulated_pressure, (i - 1, j), (i, j)) {
                    let down = ((i - 1, j), (i, j));
                    proof {
                        assert forall|other: ((usize, usize), (usize, usize))|
                            self.load_breaks(world, other) && self.load_rank(other) == rank implies other
                            == down by {
                            self.lemma_bond_of_load_rank(other, i as int, j as int, 0);
                        }
                        self.lemma_load_found_push(world, broken_bonds@, down, rank);
                    }
                    broken_bonds.push(down);
                } else {
                    proof {
                        assert forall|bond: ((usize, usize), (usize, usize))|
                            self.load_breaks(world, bond) implies self.load_rank(bond) != rank by {
                            if self.load_rank(bond) == rank {
                                self.lemma_bond_of_load_rank(bond, i as int, j as int, 0);
                            }
                        }
                        self.lemma_load_found_skip(world, broken_bonds@, rank);
                    }
                }
                if self.load_breaks_bond(world, accumulated_pressure, (i, j), (i, j + 1)) {
                    let right = ((i, j), (i, j + 1));
                    proof {
                        assert forall|other: ((usize, usize), (usize, usize))|
                            self.load_breaks(world, other) && self.load_rank(other) == rank + 1 implies other
                            == right by {
                            self.lemma_bond_of_load_rank(other, i as int, j as int, 1);
                        }
                        self.lemma_load_found_push(world, broken_bonds@, right, rank + 1);
                    }
                    broken_bonds.push(right);
                } else {
                    proof {
                        assert forall|bond: ((usize, usize), (usize, usize))|
                            self.load_breaks(world, bond) implies self.load_rank(bond) != rank + 1 by {
                            if self.load_rank(bond) == rank + 1 {
                                self.lemma_bond_of_load_rank(bond, i as int, j as int, 1);
                            }
                        }
                        self.lemma_load_found_skip(world, broken_bonds@, rank + 1);
                    }
                }
                proof {
                    self.lemma_column_pressure_bounded(world, j as int);
                    if i > 0 {
                        self.lemma_weight_above_bounded(i - 1, j as int);
                    }
                    self.lemma_weight_above_bounded(i as int, j as int);
                }
                if i > 0 {
                    accumulated_pressure = accumulated_pressure + self.object_grid[i][j].0.mass() as u128;
                }
            }
            proof {
                assert(j * self.object_h + self.object_h == (j + 1) * self.object_h) by (nonlinear_arith);
            }
            j += 1;
        }
        proof {
            assert forall|bond: ((usize, usize), (usize, usize))|
                self.load_breaks(world, bond) implies self.load_rank(bond) < 2 * (self.object_w
                * self.object_h) by {
                let h = self.object_h as int;
                if bond.0.0 == bond.1.0 {
                    lemma_cell_number(self.object_w as int, h, bond.0.1 as int, h - 1 - bond.0.0);
                } else {
                    lemma_cell_number(self.object_w as int, h, bond.1.1 as int, h - 1 - bond.1.0);
                }
            }
        }
        broken_bonds
    }

    /// What the world puts on a column fits beside the object's own weight.
    pub proof fn lemma_column_pressure_bounded(&self, world: &World, j: int)
        requires
            world.wf(),
        ensures
            0 <= self.column_pressure(world, j) <= 9_000_000_000_000_000 * u64::MAX,
    {
        let top = self.top_filled(j, self.object_h as int);
        let x = cell_index(self.particle(top, j).position[0]);
        let y = cell_index(self.particle(top, j).position[1]);
        if top >= 0 && world.has_cell(x, y) {
            world.lemma_load_bounded(x, y + 1);
            assert((world.height - (y + 1)) * u64::MAX <= 9_000_000_000_000_000 * u64::MAX)
                by (nonlinear_arith)
                requires
                    0 <= world.height - (y + 1) <= 9_000_000_000_000_000,
            ;
        }
    }

    /// Without force nothing breaks: an impact of force zero, and an impact
    /// that is dampened to nothing, break no bond of any object.
    pub proof fn lemma_no_force_no_fracture(
        &self,
        impact_force: u128,
        dampening_factor: u64,
        broken: Seq<((usize, usize), (usize, usize))>,
    )
        requires
            impact_force == 0 || dampening_factor == 0,
            self.is_impact_damage(impact_force, dampening_factor, broken),
        ensures
            broken.len() == 0,
    {
        if broken.len() > 0 {
            let bond = broken[0];
            assert(broken.contains(bond));
            assert(self.impact_breaks(impact_force, dampening_factor, bond));
            assert(impact_force * dampening_factor == 0) by (nonlinear_arith)
                requires
                    impact_force == 0 || dampening_factor == 0,
            ;
            assert(self.strength_between(bond.0, bond.1) * 1000 * (bond.0.0 + 1) >= 0) by (nonlinear_arith)
                requires
                    self.strength_between(bond.0, bond.1) >= 0,
                    bond.0.0 >= 0,
            ;
        }
    }

    /// Whether the object carries itself: on no cell do the object's own
    /// cells above weigh more than the cell's bond downward or to the right
    /// withstands.
    pub open spec fn bears_own_weight(&self) -> bool {
        forall|a: (usize, usize), b: (usize, usize)|
            #[trigger] self.is_bond(a, b) ==> if a.0 == b.0 {
                self.weight_above(a.0 as int, a.1 as int) <= self.strength_between(a, b)
            } else {
                self.weight_above(b.0 as int, b.1 as int) <= self.strength_between(a, b)
            }
    }

    /// Without load nothing breaks: where the world puts no load on any
    /// column of an object that carries itself, load breaks no bond.
    pub proof fn lemma_no_load_no_fracture(
        &self,
        world: &World,
        broken: Seq<((usize, usize), (usize, usize))>,
    )
        requires
            forall|j: int| 0 <= j < self.object_w ==> self.column_pressure(world, j) == 0,
            self.bears_own_weight(),
            self.is_load_damage(world, broken),
        ensures
            broken.len() == 0,
    {
        if broken.len() > 0 {
            let bond = broken[0];
            assert(broken.contains(bond));
            assert(self.load_breaks(world, bond));
            assert(self.is_bond(bond.0, bond.1));
        }
    }

    /// An object that is one row high carries itself.
    pub proof fn lemma_flat_bears_own_weight(&self)
        requires
            self.object_h <= 1,
        ensures
            self.bears_own_weight(),
    {
    }

    /// What an impact breaks is one list: there are no two lists of the
    /// bonds that an impact breaks.
    pub proof fn lemma_impact_damage_unique(
        &self,
        impact_force: u128,
        dampening_factor: u64,
        a: Seq<((usize, usize), (usize, usize))>,
        b: Seq<((usize, usize), (usize, usize))>,
    )
        requires
            self.is_impact_damage(impact_force, dampening_factor, a),
            self.is_impact_damage(impact_force, dampening_factor, b),
        ensures
            a == b,
    {
        let rank = |bond: ((usize, usize), (usize, usize))| self.impact_rank(bond);
        assert forall|p: int, q: int| 0 <= p < q < a.len() implies rank(#[trigger] a[p]) < rank(
            #[trigger] a[q],
        ) by {
            assert(self.impact_rank(a[p]) < self.impact_rank(a[q]));
        }
        assert forall|p: int, q: int| 0 <= p < q < b.len() implies rank(#[trigger] b[p]) < rank(
            #[trigger] b[q],
        ) by {
            assert(self.impact_rank(b[p]) < self.impact_rank(b[q]));
        }
        lemma_ranked_lists_equal(a, b, rank);
    }

    /// What load breaks is one list: there are no two lists of the bonds
    /// that load breaks.
    pub proof fn lemma_load_damage_unique(
        &self,
        world: &World,
        a: Seq<((usize, usize), (usize, usize))>,
        b: Seq<((usize, usize), (usize, usize))>,
    )
        requires
            self.is_load_damage(world, a),
            self.is_load_damage(world, b),
        ensures
            a == b,
    {
        let rank = |bond: ((usize, usize), (usize, usize))| self.load_rank(bond);
        assert forall|p: int, q: int| 0 <= p < q < a.len() implies rank(#[trigger] a[p]) < rank(
            #[trigger] a[q],
        ) by {
            assert(self.load_rank(a[p]) < self.load_rank(a[q]));
        }
        assert forall|p: int, q: int| 0 <= p < q < b.len() implies rank(#[trigger] b[p]) < rank(
            #[trigger] b[q],
        ) by {
            assert(self.load_rank(b[p]) < self.load_rank(b[q]));
        }
        lemma_ranked_lists_equal(a, b, rank);
    }
}

} // verus!
