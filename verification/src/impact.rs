//! What gravity and a landing do to an object: its new vertical velocity,
//! and the fragments into which an impact breaks it.

use vstd::prelude::*;
use crate::fracture::dampening_factor;
use crate::fragments::{pieces_of, views};
use crate::grid::World;
use crate::material::ParticleRef;
use crate::object::Object;
use crate::units::{whole_part, SCALE};

verus! {

impl Object {
    /// The height at which the anchor would be after one more tick of
    /// falling freely.
    pub open spec fn projected_y(&self, gravity: [i64; 2]) -> int {
        self.position[1] + self.velocity[1] + gravity[1]
    }

    /// The world row that is probed for a collision: the row of the
    /// projected height, and the floor row where that height lies below the
    /// floor.
    pub open spec fn probe_row(&self, gravity: [i64; 2]) -> int {
        if self.projected_y(gravity) < 0 {
            0
        } else {
            whole_part(self.projected_y(gravity))
        }
    }

    /// The world column of the object's column `j`.
    pub open spec fn probe_column(&self, j: int) -> int {
        whole_part(self.position[0] + j * 1000)
    }

    /// What the first `j` columns of the object's lower edge would hit: the
    /// occupants of the probed cells, from left to right.
    pub open spec fn contacts(&self, gravity: [i64; 2], world: &World, j: int) -> Seq<ParticleRef>
        decreases j,
    {
        if j <= 0 {
            Seq::empty()
        } else {
            match world.cell(self.probe_column(j - 1), self.probe_row(gravity)).0 {
                Some(contact) => self.contacts(gravity, world, j - 1).push(contact),
                None => self.contacts(gravity, world, j - 1),
            }
        }
    }

    /// The vertical velocity after gravity has acted: zero where the lower
    /// edge would hit something; else, where the object would pass the
    /// floor, the velocity that lands it exactly on the floor; else the old
    /// velocity plus gravity.
    pub open spec fn next_fall_speed(&self, gravity: [i64; 2], world: &World) -> int {
        if self.contacts(gravity, world, self.object_w as int).len() > 0 {
            0
        } else if self.projected_y(gravity) < 0 {
            -self.position[1]
        } else {
            self.velocity[1] + gravity[1]
        }
    }

    /// Whether an impact on what the lower edge hits breaks the given bond:
    /// the object lands while moving, and the force of its impact, dampened
    /// by what it lands on, breaks the bond.
    pub open spec fn landing_breaks(
        &self,
        gravity: [i64; 2],
        world: &World,
        bond: ((usize, usize), (usize, usize)),
    ) -> bool {
        &&& self.contacts(gravity, world, self.object_w as int).len() > 0
        &&& self.velocity[1] != 0
        &&& self.impact_breaks(
            self.impact_force(self.velocity[1]) as u128,
            dampening_factor(self.contacts(gravity, world, self.object_w as int)) as u64,
            bond,
        )
    }

    /// `after` is this object but for its vertical velocity.
    pub open spec fn same_but_fall(&self, after: &Object) -> bool {
        &&& after.object_id == self.object_id
        &&& after.is_destroyed == self.is_destroyed
        &&& after.position == self.position
        &&& after.velocity[0] == self.velocity[0]
        &&& after.total_object_mass == self.total_object_mass
        &&& after.object_h == self.object_h
        &&& after.object_w == self.object_w
        &&& after.object_grid == self.object_grid
    }

    /// What gravity and a landing make of the object. `after` is the object
    /// but for its vertical velocity, which is the next fall speed. There are
    /// `pieces` if, and only if, the landing breaks a bond, and they are then
    /// the fragments that the bonds which the impact breaks leave.
    pub open spec fn fell(
        &self,
        gravity: [i64; 2],
        world: &World,
        after: &Object,
        pieces: Option<Seq<Seq<(usize, usize)>>>,
    ) -> bool {
        &&& self.same_but_fall(after)
        &&& after.velocity[1] == self.next_fall_speed(gravity, world)
        &&& pieces is Some <==> exists|bond: ((usize, usize), (usize, usize))|
            self.landing_breaks(gravity, world, bond)
        &&& pieces matches Some(fragments) ==> exists|broken: Seq<((usize, usize), (usize, usize))>|
            {
                &&& #[trigger] self.is_impact_damage(
                    self.impact_force(self.velocity[1]) as u128,
                    dampening_factor(self.contacts(gravity, world, self.object_w as int)) as u64,
                    broken,
                )
                &&& self.is_fragmentation(broken, fragments)
            }
    }

    /// Whether gravity can act on the object: every cell that is probed for
    /// a collision lies on the grid, and the new velocity is representable.
    pub open spec fn can_fall(&self, gravity: [i64; 2], world: &World) -> bool {
        &&& forall|j: int|
            0 <= j < self.object_w ==> world.has_cell(#[trigger] self.probe_column(j), self.probe_row(gravity))
        &&& i64::MIN <= self.next_fall_speed(gravity, world) <= i64::MAX
    }

    /// Computes [`Object::can_fall`].
    pub fn can_fall_here(&self, gravity: [i64; 2], world: &World) -> (can: bool)
        requires
            self.shaped(),
            world.wf(),
        ensures
            can == self.can_fall(gravity, world),
    {
        let next_y: i128 = self.position[1] as i128 + self.velocity[1] as i128 + gravity[1] as i128;
        let check_y: i128 = if next_y < 0 {
            0
        } else {
            next_y / (SCALE as i128)
        };
        let mut hit = false;
        let mut j: usize = 0;
        while j < self.object_w
            invariant
                self.shaped(),
                world.wf(),
                j <= self.object_w,
                check_y == self.probe_row(gravity),
                forall|c: int|
                    0 <= c < j ==> world.has_cell(#[trigger] self.probe_column(c), self.probe_row(gravity)),
                hit == (self.contacts(gravity, world, j as int).len() > 0),
            decreases self.object_w - j,
        {
            let x: i128 = (self.position[0] as i128 + (j as i128) * 1000) / 1000;
            if x < 0 || x >= world.width as i128 || check_y >= world.height as i128 {
                assert(!world.has_cell(self.probe_column(j as int), self.probe_row(gravity)));
                return false;
            }
            if world.give_occupation_on_position(x as usize, check_y as usize).is_some() {
                hit = true;
            }
            j += 1;
        }
        if hit {
            true
        } else if next_y < 0 {
            self.position[1] > i64::MIN
        } else {
            let next: i128 = self.velocity[1] as i128 + gravity[1] as i128;
            i64::MIN as i128 <= next && next <= i64::MAX as i128
        }
    }

    /// What one tick makes of object and grid. A destroyed object, and one
    /// on which gravity cannot act, is left alone. Else gravity acts and the
    /// object may break on landing; if it does not break, it moves by its
    /// velocity, where its new position is representable.
    pub open spec fn advanced(
        &self,
        gravity: [i64; 2],
        world: &World,
        after: &Object,
        after_world: &World,
        pieces: Option<Seq<Seq<(usize, usize)>>>,
    ) -> bool {
        if self.is_destroyed || !self.can_fall(gravity, world) {
            *after == *self && *after_world == *world && pieces is None
        } else {
            exists|mid: Object|
                {
                    &&& #[trigger] self.fell(gravity, world, &mid, pieces)
                    &&& mid.wf()
                    &&& if pieces is None && mid.can_advance() {
                        mid.shifted(world, after, after_world)
                    } else {
                        *after == mid && *after_world == *world
                    }
                }
        }
    }

    /// Lets gravity act on the object, breaks it where it lands too hard,
    /// and else moves it by its velocity, as far as the grid and the range of
    /// positions allow.
    pub fn advance(&mut self, gravity: [i64; 2], world: &mut World) -> (fragments: Option<
        Vec<Vec<(usize, usize)>>,
    >)
        requires
            old(self).wf(),
            old(world).wf(),
        ensures
            final(self).wf(),
            final(world).wf(),
            old(self).advanced(
                gravity,
                old(world),
                final(self),
                final(world),
                pieces_of(fragments),
            ),
    {
        if self.is_destroyed || !self.can_fall_here(gravity, world) {
            return None;
        }
        let fragments = self.update_object_velocity(gravity, world);
        let ghost mid = *self;
        if fragments.is_none() && self.can_advance_here() {
            self.update_object_position(world);
        }
        proof {
            assert(old(self).fell(gravity, old(world), &mid, pieces_of(fragments)));
        }
        fragments
    }

    /// Whether load breaks the object into `pieces`: the object is at rest
    /// vertically, load breaks one bond at least, and the bonds that are
    /// left hold more than one fragment.
    pub open spec fn crushed_into(&self, world: &World, pieces: Seq<Seq<(usize, usize)>>) -> bool {
        &&& self.velocity[1] == 0
        &&& exists|broken: Seq<((usize, usize), (usize, usize))>|
            {
                &&& #[trigger] self.is_load_damage(world, broken)
                &&& broken.len() > 0
                &&& self.is_fragmentation(broken, pieces)
                &&& pieces.len() > 1
            }
    }

    /// Whether load leaves the object whole: the object moves vertically, or
    /// load breaks no bond, or the bonds that are left hold one fragment.
    pub open spec fn withstands(&self, world: &World) -> bool {
        ||| self.velocity[1] != 0
        ||| exists|broken: Seq<((usize, usize), (usize, usize))>|
            {
                &&& #[trigger] self.is_load_damage(world, broken)
                &&& broken.len() == 0 || exists|pieces: Seq<Seq<(usize, usize)>>| #[trigger]
                    self.is_fragmentation(broken, pieces) && pieces.len() <= 1
            }
    }

    /// Breaks an object at rest under the load that lies on it: the
    /// fragments that are left, if there are more than one.
    pub fn crush(&self, world: &World) -> (fragments: Option<Vec<Vec<(usize, usize)>>>)
        requires
            self.shaped(),
            world.wf(),
        ensures
            fragments matches Some(pieces) ==> self.crushed_into(world, views(pieces@)),
            fragments is None ==> self.withstands(world),
    {
        if self.velocity[1] != 0 {
            return None;
        }
        let broken_bonds = self.check_pressure_fracture(world);
        if broken_bonds.len() == 0 {
            proof {
                assert(self.is_load_damage(world, broken_bonds@));
            }
            return None;
        }
        let fragments = self.find_fragments(broken_bonds.as_slice());
        if fragments.len() > 1 {
            proof {
                assert(self.is_load_damage(world, broken_bonds@));
            }
            Some(fragments)
        } else {
            proof {
                assert(self.is_load_damage(world, broken_bonds@));
                assert(self.is_fragmentation(broken_bonds@, views(fragments@)));
            }
            None
        }
    }

    /// Lets gravity act on the object, and breaks it where it lands too
    /// hard. Every column of the lower edge is probed at the row where the
    /// object would be next. Where a probed cell is occupied the object
    /// stops; if it was moving, the impact may break bonds, and the fragments
    /// that are left are returned. Nothing is returned where nothing breaks.
    pub fn update_object_velocity(&mut self, gravity: [i64; 2], world: &World) -> (fragments: Option<
        Vec<Vec<(usize, usize)>>,
    >)
        requires
            old(self).wf(),
            !old(self).is_destroyed,
            world.wf(),
            forall|j: int|
                0 <= j < old(self).object_w ==> world.has_cell(
                    #[trigger] old(self).probe_column(j),
                    old(self).probe_row(gravity),
                ),
            i64::MIN <= old(self).next_fall_speed(gravity, world) <= i64::MAX,
        ensures
            final(self).wf(),
            old(self).fell(
                gravity,
                world,
                final(self),
                pieces_of(fragments),
            ),
    {
        let ghost start = *self;
        let next_y: i128 = self.position[1] as i128 + self.velocity[1] as i128 + gravity[1] as i128;
        let check_y: i128 = if next_y < 0 {
            0
        } else {
            next_y / (SCALE as i128)
        };
        let mut collisions: Vec<ParticleRef> = Vec::new();
        let mut j: usize = 0;
        while j < self.object_w
            invariant
                *self == start,
                self.wf(),
                world.wf(),
                j <= self.object_w,
                check_y == self.probe_row(gravity),
                forall|c: int|
                    0 <= c < self.object_w ==> world.has_cell(
                        #[trigger] self.probe_column(c),
                        self.probe_row(gravity),
                    ),
                collisions@ == self.contacts(gravity, world, j as int),
            decreases self.object_w - j,
        {
            proof {
                assert(world.has_cell(self.probe_column(j as int), self.probe_row(gravity)));
            }
            let check_x = ((self.position[0] as i128 + (j as i128) * 1000) / 1000) as usize;
            if let Some(particle_ref) = world.give_occupation_on_position(check_x, check_y as usize) {
                collisions.push(particle_ref);
            }
            j += 1;
        }
        let vx = self.velocity[0];
        if collisions.len() > 0 {
            let velocity_before = self.velocity[1];
            self.velocity = [vx, 0];
            proof {
                start.lemma_wf_but_velocity(self);
            }
            if velocity_before != 0 {
                let impact_force = self.calc_impact_force(velocity_before);
                let dampening = Self::calc_dampening_factor(collisions.as_slice());
                let broken_bonds = self.check_fracture(impact_force, dampening);
                proof {
                    start.lemma_damage_by_materials(self, impact_force, dampening, broken_bonds@);
                }
                if broken_bonds.len() == 0 {
                    proof {
                        assert forall|bond: ((usize, usize), (usize, usize))|
                            !start.landing_breaks(gravity, world, bond) by {
                            if start.landing_breaks(gravity, world, bond) {
                                assert(broken_bonds@.contains(bond));
                            }
                        }
                    }
                    return None;
                }
                let fragments = self.find_fragments(broken_bonds.as_slice());
                proof {
                    assert(broken_bonds@.contains(broken_bonds@[0]));
                    assert(start.landing_breaks(gravity, world, broken_bonds@[0]));
                    start.lemma_fragmentation_by_materials(self, broken_bonds@, views(fragments@));
                }
                return Some(fragments);
            }
        } else if next_y < 0 {
            self.velocity = [vx, -self.position[1]];
            proof {
                start.lemma_wf_but_velocity(self);
            }
        } else {
            self.velocity = [vx, self.velocity[1] + gravity[1]];
            proof {
                start.lemma_wf_but_velocity(self);
            }
        }
        None
    }

    /// What an impact breaks depends on the cells alone: two objects with
    /// the same grid of cells take the same damage.
    pub proof fn lemma_damage_by_materials(
        &self,
        other: &Object,
        impact_force: u128,
        dampening_factor: u64,
        broken: Seq<((usize, usize), (usize, usize))>,
    )
        requires
            self.object_h == other.object_h,
            self.object_w == other.object_w,
            self.object_grid == other.object_grid,
            other.is_impact_damage(impact_force, dampening_factor, broken),
        ensures
            self.is_impact_damage(impact_force, dampening_factor, broken),
    {
        assert forall|bond: ((usize, usize), (usize, usize))|
            broken.contains(bond) <==> self.impact_breaks(impact_force, dampening_factor, bond) by {
            assert(self.impact_breaks(impact_force, dampening_factor, bond) == other.impact_breaks(
                impact_force,
                dampening_factor,
                bond,
            ));
        }
        assert forall|p: int, q: int| 0 <= p < q < broken.len() implies self.impact_rank(
            #[trigger] broken[p],
        ) < self.impact_rank(#[trigger] broken[q]) by {
            assert(other.impact_rank(broken[p]) < other.impact_rank(broken[q]));
        }
    }

    /// Into which fragments an object falls depends on the cells alone.
    pub proof fn lemma_fragmentation_by_materials(
        &self,
        other: &Object,
        broken: Seq<((usize, usize), (usize, usize))>,
        fragments: Seq<Seq<(usize, usize)>>,
    )
        requires
            self.object_h == other.object_h,
            self.object_w == other.object_w,
            self.object_grid == other.object_grid,
            other.is_fragmentation(broken, fragments),
        ensures
            self.is_fragmentation(broken, fragments),
    {
        assert forall|a: (usize, usize), b: (usize, usize)|
            self.connected(broken, a, b) == other.connected(broken, a, b) by {
            if self.connected(broken, a, b) {
                let path = choose|path: Seq<(usize, usize)>| #[trigger]
                    self.is_path(broken, path) && path.first() == a && path.last() == b;
                assert forall|k: int| 0 <= k < path.len() - 1 implies other.joined(
                    broken,
                    #[trigger] path[k],
                    path[k + 1],
                ) by {
                    assert(self.joined(broken, path[k], path[k + 1]));
                }
                assert(other.is_path(broken, path));
            }
            if other.connected(broken, a, b) {
                let path = choose|path: Seq<(usize, usize)>| #[trigger]
                    other.is_path(broken, path) && path.first() == a && path.last() == b;
                assert forall|k: int| 0 <= k < path.len() - 1 implies self.joined(
                    broken,
                    #[trigger] path[k],
                    path[k + 1],
                ) by {
                    assert(other.joined(broken, path[k], path[k + 1]));
                }
                assert(self.is_path(broken, path));
            }
        }
        assert forall|i: int, j: int| self.is_filled(i, j) implies exists|f: int, p: int|
            0 <= f < fragments.len() && 0 <= p < fragments[f].len() && #[trigger] fragments[f][p] == (
                i as usize,
                j as usize,
            ) by {
            assert(other.is_filled(i, j));
        }
        assert forall|f: int, p: int, q: int|
            0 <= f < fragments.len() && 0 <= p < q < fragments[f].len() implies self.number_of(
            #[trigger] fragments[f][p],
        ) < self.number_of(#[trigger] fragments[f][q]) by {
            assert(other.number_of(fragments[f][p]) < other.number_of(fragments[f][q]));
        }
        assert forall|f: int, g: int| 0 <= f < g < fragments.len() implies self.number_of(
            (#[trigger] fragments[f])[0],
        ) < self.number_of((#[trigger] fragments[g])[0]) by {
            assert(other.number_of(fragments[f][0]) < other.number_of(fragments[g][0]));
        }
    }
}

} // verus!
