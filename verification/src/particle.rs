//! A free particle and the rules by which it falls, yields to pressure and
//! flows.

use vstd::prelude::*;
use crate::chance::choose_one;
use crate::grid::World;
use crate::material::{MaterialTyp, ParticleRef};
use crate::units::{cell_index, cell_of, edge_of, whole_part, SCALE};

verus! {

/// One unit of material. Position and velocity are `[x, y]` in thousandths
/// of a cell, and of a cell per tick.
#[derive(Debug, Clone, Copy)]
pub struct Particle {
    pub id: i32,
    pub position: [i64; 2],
    pub velocity: [i64; 2],
    pub material: MaterialTyp,
    pub particle_ref: ParticleRef,
}

/// The way into the cell in column `x`, row `y`, as pressure, column and
/// row, if the grid has that cell.
pub open spec fn way_to(world: &World, x: int, y: int) -> Seq<(u128, i64, i64)> {
    if world.has_cell(x, y) {
        seq![(world.cell(x, y).2, x as i64, y as i64)]
    } else {
        Seq::empty()
    }
}

/// `way` is one of `ways`, and none of them has a lower pressure.
pub open spec fn is_lowest(ways: Seq<(u128, i64, i64)>, way: (u128, i64, i64)) -> bool {
    &&& ways.contains(way)
    &&& forall|i: int| 0 <= i < ways.len() ==> way.0 <= (#[trigger] ways[i]).0
}

impl Particle {
    /// A particle of the given identifier, position, velocity, material and
    /// reference.
    pub fn new(
        id: i32,
        position: [i64; 2],
        velocity: [i64; 2],
        material: MaterialTyp,
        particle_ref: ParticleRef,
    ) -> (particle: Particle)
        ensures
            particle == (Particle { id, position, velocity, material, particle_ref }),
    {
        Particle { id, position, velocity, material, particle_ref }
    }

    /// The particle's mass: the density of its material.
    pub open spec fn spec_mass(&self) -> u64 {
        self.material.spec_density()
    }

    /// Computes [`Particle::spec_mass`].
    #[verifier::when_used_as_spec(spec_mass)]
    pub fn mass(&self) -> (m: u64)
        ensures
            m == self.spec_mass(),
    {
        self.material.density()
    }

    /// Where the particle is.
    pub fn get_position(&self) -> (position: [i64; 2])
        ensures
            position == self.position,
    {
        self.position
    }

    /// How fast the particle moves.
    pub fn get_velocity(&self) -> (velocity: [i64; 2])
        ensures
            velocity == self.velocity,
    {
        self.velocity
    }

    /// Momentum, velocity times mass, in thousandths and cut off toward zero.
    pub fn get_impuls(&self) -> (impuls: [i128; 2])
        ensures
            impuls[0] == whole_part(self.velocity[0] * self.spec_mass()),
            impuls[1] == whole_part(self.velocity[1] * self.spec_mass()),
    {
        let m = self.mass() as i128;
        let vx = self.velocity[0] as i128;
        let vy = self.velocity[1] as i128;
        assert(-0x8000_0000_0000_0000 * 8000 <= vx * m <= 0x8000_0000_0000_0000 * 8000)
            by (nonlinear_arith)
            requires
                0 <= m <= 8000,
                -0x8000_0000_0000_0000 <= vx <= 0x8000_0000_0000_0000,
        ;
        assert(-0x8000_0000_0000_0000 * 8000 <= vy * m <= 0x8000_0000_0000_0000 * 8000)
            by (nonlinear_arith)
            requires
                0 <= m <= 8000,
                -0x8000_0000_0000_0000 <= vy <= 0x8000_0000_0000_0000,
        ;
        [(vx * m) / (SCALE as i128), (vy * m) / (SCALE as i128)]
    }

    /// The column of the cell that the particle is in.
    pub open spec fn column(&self) -> int {
        cell_index(self.position[0])
    }

    /// The row of the cell that the particle is in.
    pub open spec fn row(&self) -> int {
        cell_index(self.position[1])
    }

    /// `after` is this particle but for its position and velocity.
    pub open spec fn same_body(&self, after: &Particle) -> bool {
        &&& after.id == self.id
        &&& after.material == self.material
        &&& after.particle_ref == self.particle_ref
    }

    /// What a move leaves behind. Where `to` is a position, `after` is this
    /// particle at that position and `after_world` is `world` with the
    /// particle's old cell cleared and its new cell written. Where `to` is
    /// nothing, particle and grid are as they were.
    pub open spec fn carried(
        &self,
        world: &World,
        to: Option<(int, int)>,
        after: &Particle,
        after_world: &World,
    ) -> bool {
        match to {
            Some((x, y)) => {
                &&& after.position[0] == x
                &&& after.position[1] == y
                &&& after.velocity == self.velocity
                &&& self.same_body(after)
                &&& world.moved(
                    after_world,
                    self.position,
                    after.position,
                    self.particle_ref,
                    self.spec_mass(),
                )
            },
            None => *after == *self && *after_world == *world,
        }
    }

    /// The height at which the particle would be after one more tick of
    /// falling freely.
    pub open spec fn projected_y(&self, gravity: [i64; 2]) -> int {
        self.position[1] + self.velocity[1] + gravity[1]
    }

    /// The row that is probed for a collision: the row of the projected
    /// height, and the floor row where that height lies below the floor.
    pub open spec fn probe_row(&self, gravity: [i64; 2]) -> int {
        if self.projected_y(gravity) < 0 {
            0
        } else {
            whole_part(self.projected_y(gravity))
        }
    }

    /// The vertical velocity after gravity has acted: zero where the probed
    /// cell is occupied; else, where the particle would pass the floor, the
    /// velocity that lands it exactly on the floor; else the old velocity
    /// plus gravity.
    pub open spec fn next_fall_speed(&self, gravity: [i64; 2], world: &World) -> int {
        if world.cell(self.column(), self.probe_row(gravity)).0 is Some {
            0
        } else if self.projected_y(gravity) < 0 {
            -self.position[1]
        } else {
            self.velocity[1] + gravity[1]
        }
    }

    /// Lets gravity act on the vertical velocity. The horizontal velocity
    /// and the position stay.
    pub fn update_velocity(&mut self, gravity: [i64; 2], world: &World)
        requires
            world.wf(),
            world.has_cell(old(self).column(), old(self).probe_row(gravity)),
            i64::MIN <= old(self).next_fall_speed(gravity, world) <= i64::MAX,
        ensures
            final(self).velocity[1] == old(self).next_fall_speed(gravity, world),
            final(self).velocity[0] == old(self).velocity[0],
            final(self).position == old(self).position,
            old(self).same_body(final(self)),
    {
        let next_y: i128 = self.position[1] as i128 + self.velocity[1] as i128 + gravity[1] as i128;
        let check_y: i128 = if next_y < 0 {
            0
        } else {
            next_y / (SCALE as i128)
        };
        let x = cell_of(self.position[0]) as usize;
        let vx = self.velocity[0];
        if world.give_occupation_on_position(x, check_y as usize).is_some() {
            self.velocity = [vx, 0];
        } else if next_y < 0 {
            self.velocity = [vx, -self.position[1]];
        } else {
            self.velocity = [vx, self.velocity[1] + gravity[1]];
        }
    }

    /// Moves the particle by its velocity: clears its old cell, adds the
    /// velocity to the position, writes its new cell.
    pub fn update_position(&mut self, world: &mut World)
        requires
            old(world).wf(),
            i64::MIN <= old(self).position[0] + old(self).velocity[0] <= i64::MAX,
            i64::MIN <= old(self).position[1] + old(self).velocity[1] <= i64::MAX,
        ensures
            old(self).carried(
                old(world),
                Some(
                    (
                        old(self).position[0] + old(self).velocity[0],
                        old(self).position[1] + old(self).velocity[1],
                    ),
                ),
                final(self),
                final(world),
            ),
    {
        let from = self.position;
        self.position = [from[0] + self.velocity[0], from[1] + self.velocity[1]];
        world.relocate(from, self.position, self.particle_ref, self.mass());
    }

    /// The ways out of the particle's cell that pressure can push it along,
    /// in the order up-right, right, down-right, down, down-left, left,
    /// up-left, without those that leave the grid.
    pub open spec fn ways(&self, world: &World) -> Seq<(u128, i64, i64)> {
        let x = self.column();
        let y = self.row();
        way_to(world, x + 1, y + 1) + way_to(world, x + 1, y) + way_to(world, x + 1, y - 1)
            + way_to(world, x, y - 1) + way_to(world, x - 1, y - 1) + way_to(world, x - 1, y)
            + way_to(world, x - 1, y + 1)
    }

    /// Computes [`Particle::ways`].
    pub fn neighbour_ways(&self, world: &World) -> (values: Vec<(u128, i64, i64)>)
        requires
            world.wf(),
        ensures
            values@ == self.ways(world),
            forall|i: int|
                0 <= i < values.len() ==> world.has_cell((#[trigger] values[i]).1 as int, values[i].2 as int),
    {
        let x = cell_of(self.position[0]);
        let y = cell_of(self.position[1]);
        let mut values: Vec<(u128, i64, i64)> = Vec::new();
        push_way(world, &mut values, x + 1, y + 1);
        push_way(world, &mut values, x + 1, y);
        push_way(world, &mut values, x + 1, y - 1);
        push_way(world, &mut values, x, y - 1);
        push_way(world, &mut values, x - 1, y - 1);
        push_way(world, &mut values, x - 1, y);
        push_way(world, &mut values, x - 1, y + 1);
        values
    }

    /// The ways of lowest pressure among [`Particle::ways`], in their order.
    pub open spec fn lowest_ways(&self, world: &World) -> Seq<(u128, i64, i64)> {
        self.ways(world).filter(|way: (u128, i64, i64)| is_lowest(self.ways(world), way))
    }

    /// Computes [`Particle::lowest_ways`].
    pub fn lowest_pressure_ways(&self, world: &World) -> (lowest: Vec<(u128, i64, i64)>)
        requires
            world.wf(),
        ensures
            lowest@ == self.lowest_ways(world),
            lowest.len() == 0 <==> self.ways(world).len() == 0,
            forall|i: int| 0 <= i < lowest.len() ==> is_lowest(self.ways(world), #[trigger] lowest[i]),
    {
        let values = self.neighbour_ways(world);
        keep_lowest(&values)
    }

    /// Whether `way` may come out of [`Particle::check_way`]: nothing where
    /// there is no way at all, else any way of lowest pressure.
    pub open spec fn may_take(&self, world: &World, way: Option<(u128, i64, i64)>) -> bool {
        match way {
            Some(w) => is_lowest(self.ways(world), w),
            None => self.ways(world).len() == 0,
        }
    }

    /// Picks the way of lowest pressure out of the particle's cell, and one
    /// of them at random where several have the lowest pressure.
    pub fn check_way(&self, world: &World) -> (way: Option<(u128, i64, i64)>)
        requires
            world.wf(),
        ensures
            self.may_take(world, way),
            way is None <==> self.ways(world).len() == 0,
            way matches Some(w) ==> world.has_cell(w.1 as int, w.2 as int),
    {
        let lowest = self.lowest_pressure_ways(world);
        let way = choose_one(&lowest);
        proof {
            if let Some(w) = way {
                let i = choose|i: int| 0 <= i < lowest@.len() && lowest@[i] == w;
                assert(is_lowest(self.ways(world), lowest[i]));
                lemma_ways_in_grid(self, world);
            }
        }
        way
    }

    /// Whether pressure moves the particle along `way`: its own cell bears
    /// more than the particle's mass, the way leads to strictly lower
    /// pressure, not upward, and into a free cell.
    pub open spec fn yields_to(&self, world: &World, way: Option<(u128, i64, i64)>) -> bool {
        &&& world.cell(self.column(), self.row()).2 > self.spec_mass()
        &&& way matches Some(w)
        &&& w.0 < world.cell(self.column(), self.row()).2
        &&& w.2 <= self.row()
        &&& world.cell(w.1 as int, w.2 as int).0 is None
    }

    /// The position at which pressure puts the particle along `way`: the
    /// corner of the way's cell, or nothing where the particle stays.
    pub open spec fn pressure_target(&self, world: &World, way: Option<(u128, i64, i64)>) -> Option<
        (int, int),
    > {
        match way {
            Some(w) if self.yields_to(world, way) => Some((edge_of(w.1 as int), edge_of(w.2 as int))),
            _ => None,
        }
    }

    /// Moves the particle along a given way if pressure makes it yield.
    pub fn resolve_pressure_along(&mut self, world: &mut World, way: Option<(u128, i64, i64)>)
        requires
            old(world).wf(),
            old(world).holds(old(self).position),
            way matches Some(w) ==> old(world).has_cell(w.1 as int, w.2 as int),
        ensures
            old(self).carried(
                old(world),
                old(self).pressure_target(old(world), way),
                final(self),
                final(world),
            ),
    {
        let own_x = cell_of(self.position[0]) as usize;
        let own_y = cell_of(self.position[1]) as usize;
        let own_pressure = world.give_pressure_on_position(own_x, own_y);
        if own_pressure <= self.mass() as u128 {
            return ;
        }
        if let Some((min_pressure, target_x, target_y)) = way {
            if min_pressure < own_pressure && target_y <= own_y as i64 {
                if world.give_occupation_on_position(target_x as usize, target_y as usize).is_none() {
                    let from = self.position;
                    self.position = [target_x * SCALE, target_y * SCALE];
                    world.relocate(from, self.position, self.particle_ref, self.mass());
                }
            }
        }
    }

    /// Lets pressure push the particle: where its cell bears more than its
    /// own mass, it moves to the neighbouring cell of lowest pressure, if
    /// that pressure is strictly lower, the cell is not above it and is
    /// free. Among several cells of lowest pressure one is picked at random.
    pub fn resolve_pressure(&mut self, world: &mut World)
        requires
            old(world).wf(),
            old(world).holds(old(self).position),
        ensures
            exists|way: Option<(u128, i64, i64)>|
                old(self).may_take(old(world), way) && #[trigger] old(self).carried(
                    old(world),
                    old(self).pressure_target(old(world), way),
                    final(self),
                    final(world),
                ),
    {
        let way = self.check_way(world);
        self.resolve_pressure_along(world, way);
    }

    /// Where falling takes the particle: straight down into a free cell;
    /// else, for a material that does not keep its shape or where `diagonal`
    /// allows it, down-left or else down-right into a free cell. Nothing in
    /// the floor row, and nothing where no such cell is free.
    pub open spec fn fall_target(&self, world: &World, diagonal: bool) -> Option<(int, int)> {
        let x = self.column();
        let y = self.row();
        if y <= 0 {
            None
        } else if world.cell(x, y - 1).0 is None {
            Some((self.position[0] as int, self.position[1] - 1000))
        } else if self.material.spec_is_solid() && !diagonal {
            None
        } else if x > 0 && world.cell(x - 1, y - 1).0 is None {
            Some((self.position[0] - 1000, self.position[1] - 1000))
        } else if x < world.width - 1 && world.cell(x + 1, y - 1).0 is None {
            Some((self.position[0] + 1000, self.position[1] - 1000))
        } else {
            None
        }
    }

    /// Lets the particle fall by one cell, as [`Particle::fall_target`] says.
    pub fn fall_down_with(&mut self, world: &mut World, diagonal: bool)
        requires
            old(world).wf(),
            old(self).row() > 0 ==> old(world).holds(old(self).position),
        ensures
            old(self).carried(
                old(world),
                old(self).fall_target(old(world), diagonal),
                final(self),
                final(world),
            ),
    {
        let x = cell_of(self.position[0]);
        let y = cell_of(self.position[1]);
        if y <= 0 {
            return ;
        }
        let from = self.position;
        if world.give_occupation_on_position(x as usize, (y - 1) as usize).is_none() {
            self.position = [from[0], from[1] - SCALE];
            world.relocate(from, self.position, self.particle_ref, self.mass());
            return ;
        }
        if self.material.is_solid() && !diagonal {
            return ;
        }
        if x > 0 && world.give_occupation_on_position((x - 1) as usize, (y - 1) as usize).is_none() {
            self.position = [from[0] - SCALE, from[1] - SCALE];
            world.relocate(from, self.position, self.particle_ref, self.mass());
            return ;
        }
        if (x as u64) + 1 < (world.width as u64) && world.give_occupation_on_position(
            (x + 1) as usize,
            (y - 1) as usize,
        ).is_none() {
            self.position = [from[0] + SCALE, from[1] - SCALE];
            world.relocate(from, self.position, self.particle_ref, self.mass());
        }
    }

    /// Lets the particle fall by one cell: straight down, else down-left,
    /// else down-right, into the first of these cells that is free.
    pub fn fall_down(&mut self, world: &mut World)
        requires
            old(world).wf(),
            old(self).row() > 0 ==> old(world).holds(old(self).position),
        ensures
            old(self).carried(
                old(world),
                old(self).fall_target(old(world), true),
                final(self),
                final(world),
            ),
    {
        self.fall_down_with(world, true);
    }

    /// Whether the particle cannot fall straight down: it is in the floor
    /// row, or the cell below it is occupied.
    pub open spec fn rests(&self, world: &World) -> bool {
        self.row() == 0 || world.cell(self.column(), self.row() - 1).0 is Some
    }

    /// The sides to which a liquid may flow, each as pressure, column and
    /// row: none for a material that keeps its shape or that can still fall;
    /// else the free neighbour to the left or right, of two free neighbours
    /// the one with the lower pressure, and both where their pressures are
    /// equal.
    pub open spec fn flow_sides(&self, world: &World) -> Seq<(u128, i64, i64)> {
        let x = self.column();
        let y = self.row();
        let left = (world.cell(x - 1, y).2, (x - 1) as i64, y as i64);
        let right = (world.cell(x + 1, y).2, (x + 1) as i64, y as i64);
        let left_open = x > 0 && world.cell(x - 1, y).0 is None;
        let right_open = x + 1 < world.width && world.cell(x + 1, y).0 is None;
        if self.material.spec_is_solid() || !self.rests(world) {
            Seq::empty()
        } else if left_open && right_open {
            if left.0 < right.0 {
                seq![left]
            } else if right.0 < left.0 {
                seq![right]
            } else {
                seq![left, right]
            }
        } else if left_open {
            seq![left]
        } else if right_open {
            seq![right]
        } else {
            Seq::empty()
        }
    }

    /// Computes [`Particle::flow_sides`].
    pub fn sideways_ways(&self, world: &World) -> (sides: Vec<(u128, i64, i64)>)
        requires
            world.wf(),
            world.holds(self.position),
        ensures
            sides@ == self.flow_sides(world),
    {
        let x = cell_of(self.position[0]) as usize;
        let y = cell_of(self.position[1]) as usize;
        let mut sides: Vec<(u128, i64, i64)> = Vec::new();
        if self.material.is_solid() {
            return sides;
        }
        if y > 0 && world.give_occupation_on_position(x, y - 1).is_none() {
            return sides;
        }
        let left_open = x > 0 && world.give_occupation_on_position(x - 1, y).is_none();
        let right_open = x + 1 < world.width && world.give_occupation_on_position(x + 1, y).is_none();
        if left_open && right_open {
            let left = world.give_pressure_on_position(x - 1, y);
            let right = world.give_pressure_on_position(x + 1, y);
            if left <= right {
                sides.push((left, (x - 1) as i64, y as i64));
            }
            if right <= left {
                sides.push((right, (x + 1) as i64, y as i64));
            }
        } else if left_open {
            sides.push((world.give_pressure_on_position(x - 1, y), (x - 1) as i64, y as i64));
        } else if right_open {
            sides.push((world.give_pressure_on_position(x + 1, y), (x + 1) as i64, y as i64));
        }
        assert(sides@ =~= self.flow_sides(world));
        sides
    }

    /// Whether `side` may be taken by [`Particle::flow_sideways`]: nothing
    /// where no side is open, else any of the sides.
    pub open spec fn may_flow(&self, world: &World, side: Option<(u128, i64, i64)>) -> bool {
        match side {
            Some(s) => self.flow_sides(world).contains(s),
            None => self.flow_sides(world).len() == 0,
        }
    }

    /// The position one cell over toward the column of `side`.
    pub open spec fn flow_target(&self, side: Option<(u128, i64, i64)>) -> Option<(int, int)> {
        match side {
            Some(s) => Some(
                (self.position[0] + edge_of(s.1 - self.column()), self.position[1] as int),
            ),
            None => None,
        }
    }

    /// Moves the particle one cell toward the given side, which is one of
    /// its open sides, or leaves it where no side is given.
    pub fn flow_sideways_along(&mut self, world: &mut World, side: Option<(u128, i64, i64)>)
        requires
            old(world).wf(),
            old(world).holds(old(self).position),
            side matches Some(s) ==> old(self).flow_sides(old(world)).contains(s),
        ensures
            old(self).carried(old(world), old(self).flow_target(side), final(self), final(world)),
    {
        if let Some((_, target_x, _)) = side {
            let x = cell_of(self.position[0]);
            let from = self.position;
            proof {
                let sides = self.flow_sides(world);
                let i = choose|i: int| 0 <= i < sides.len() && sides[i] == side->0;
                assert(sides[i].1 == x - 1 || sides[i].1 == x + 1);
            }
            self.position = [from[0] + (target_x - x) * SCALE, from[1]];
            world.relocate(from, self.position, self.particle_ref, self.mass());
        }
    }

    /// Lets a liquid flow: a particle that does not keep its shape and
    /// cannot fall straight down moves one cell to its free side, to the
    /// side of lower pressure where both are free, and to one of them picked
    /// at random where both bear the same pressure.
    pub fn flow_sideways(&mut self, world: &mut World)
        requires
            old(world).wf(),
            old(world).holds(old(self).position),
        ensures
            exists|side: Option<(u128, i64, i64)>|
                old(self).may_flow(old(world), side) && #[trigger] old(self).carried(
                    old(world),
                    old(self).flow_target(side),
                    final(self),
                    final(world),
                ),
    {
        let sides = self.sideways_ways(world);
        let side = choose_one(&sides);
        self.flow_sideways_along(world, side);
    }

    /// Whether gravity can act on the particle: the cell that is probed for a
    /// collision lies on the grid, and the new velocity is representable.
    pub open spec fn can_fall(&self, gravity: [i64; 2], world: &World) -> bool {
        &&& world.has_cell(self.column(), self.probe_row(gravity))
        &&& i64::MIN <= self.next_fall_speed(gravity, world) <= i64::MAX
    }

    /// The vertical velocity after gravity has acted, where gravity can act.
    pub fn fall_speed(&self, gravity: [i64; 2], world: &World) -> (speed: Option<i64>)
        requires
            world.wf(),
        ensures
            speed is Some <==> self.can_fall(gravity, world),
            speed matches Some(v) ==> v == self.next_fall_speed(gravity, world),
    {
        let next_y: i128 = self.position[1] as i128 + self.velocity[1] as i128 + gravity[1] as i128;
        let check_y: i128 = if next_y < 0 {
            0
        } else {
            next_y / (SCALE as i128)
        };
        let x = cell_of(self.position[0]);
        if x < 0 || x as u64 >= world.width as u64 || check_y >= world.height as i128 {
            return None;
        }
        let next: i128 = if world.give_occupation_on_position(x as usize, check_y as usize).is_some() {
            0
        } else if next_y < 0 {
            -(self.position[1] as i128)
        } else {
            self.velocity[1] as i128 + gravity[1] as i128
        };
        if next < i64::MIN as i128 || next > i64::MAX as i128 {
            None
        } else {
            Some(next as i64)
        }
    }

    /// What one tick of free motion makes of particle and grid. Where
    /// gravity cannot act, nothing changes. Else the vertical velocity is
    /// the next fall speed, and the particle moves by its velocity if its
    /// new position is representable.
    pub open spec fn advanced(
        &self,
        gravity: [i64; 2],
        world: &World,
        after: &Particle,
        after_world: &World,
    ) -> bool {
        if !self.can_fall(gravity, world) {
            *after == *self && *after_world == *world
        } else {
            let x = self.position[0] + self.velocity[0];
            let y = self.position[1] + self.next_fall_speed(gravity, world);
            &&& self.same_body(after)
            &&& after.velocity[0] == self.velocity[0]
            &&& after.velocity[1] == self.next_fall_speed(gravity, world)
            &&& if i64::MIN <= x <= i64::MAX && i64::MIN <= y <= i64::MAX {
                &&& after.position[0] == x
                &&& after.position[1] == y
                &&& world.moved(after_world, self.position, after.position, self.particle_ref, self.spec_mass())
            } else {
                after.position == self.position && *after_world == *world
            }
        }
    }

    /// Lets gravity act on the particle and moves it by its velocity, as far
    /// as the grid and the range of positions allow.
    pub fn advance(&mut self, gravity: [i64; 2], world: &mut World)
        requires
            old(world).wf(),
        ensures
            old(self).advanced(gravity, old(world), final(self), final(world)),
            final(world).wf(),
    {
        match self.fall_speed(gravity, world) {
            None => {},
            Some(speed) => {
                self.velocity = [self.velocity[0], speed];
                let x: i128 = self.position[0] as i128 + self.velocity[0] as i128;
                let y: i128 = self.position[1] as i128 + speed as i128;
                if i64::MIN as i128 <= x && x <= i64::MAX as i128 && i64::MIN as i128 <= y && y
                    <= i64::MAX as i128 {
                    self.update_position(world);
                }
            },
        }
    }

    /// What pressure makes of particle and grid. A particle off the grid is
    /// left alone. Else it takes one of the ways that may come out of
    /// [`Particle::check_way`], if pressure makes it yield.
    pub open spec fn settled(&self, world: &World, after: &Particle, after_world: &World) -> bool {
        if !world.holds(self.position) {
            *after == *self && *after_world == *world
        } else {
            exists|way: Option<(u128, i64, i64)>|
                self.may_take(world, way) && #[trigger] self.carried(
                    world,
                    self.pressure_target(world, way),
                    after,
                    after_world,
                )
        }
    }

    /// Lets pressure push the particle, if the particle is on the grid.
    pub fn settle(&mut self, world: &mut World)
        requires
            old(world).wf(),
        ensures
            old(self).settled(old(world), final(self), final(world)),
            final(world).wf(),
    {
        if world.locate(self.position).is_some() {
            self.resolve_pressure(world);
            proof {
                old(self).lemma_carried_keeps_grid(old(world), final(self), world);
            }
        }
    }

    /// What falling and flowing make of particle and grid. A particle above
    /// the floor row and off the grid is left alone. A particle that can
    /// fall, falls. One that cannot, and is on the grid, flows to one of the
    /// sides that are open to it.
    pub open spec fn sunk(&self, world: &World, after: &Particle, after_world: &World) -> bool {
        if self.row() > 0 && !world.holds(self.position) {
            *after == *self && *after_world == *world
        } else if self.fall_target(world, true) is Some {
            self.carried(world, self.fall_target(world, true), after, after_world)
        } else if !world.holds(self.position) {
            *after == *self && *after_world == *world
        } else {
            exists|side: Option<(u128, i64, i64)>|
                self.may_flow(world, side) && #[trigger] self.carried(
                    world,
                    self.flow_target(side),
                    after,
                    after_world,
                )
        }
    }

    /// Lets the particle fall by one cell, or, where it cannot fall, flow by
    /// one cell, if the particle is on the grid.
    pub fn sink(&mut self, world: &mut World)
        requires
            old(world).wf(),
        ensures
            old(self).sunk(old(world), final(self), final(world)),
            final(world).wf(),
    {
        let on_grid = world.locate(self.position).is_some();
        if cell_of(self.position[1]) > 0 && !on_grid {
            return ;
        }
        let from = self.position;
        self.fall_down(world);
        if self.position[0] == from[0] && self.position[1] == from[1] && on_grid {
            self.flow_sideways(world);
            proof {
                old(self).lemma_carried_keeps_grid(old(world), final(self), world);
            }
        }
    }

    /// Whatever a move leaves behind is a grid of the same shape.
    pub proof fn lemma_carried_keeps_grid(&self, world: &World, after: &Particle, after_world: &World)
        requires
            world.wf(),
            exists|to: Option<(int, int)>| #[trigger] self.carried(world, to, after, after_world),
        ensures
            after_world.wf(),
            after_world.height == world.height,
            after_world.width == world.width,
            self.same_body(after),
            forall|x: int, y: int|
                world.has_cell(x, y) ==> (#[trigger] after_world.cell(x, y)).2 == world.cell(x, y).2,
    {
        let to = choose|to: Option<(int, int)>| #[trigger] self.carried(world, to, after, after_world);
        assert(self.carried(world, to, after, after_world));
    }
}

/// The lowest pressure among `values`, and the highest pressure there is
/// where `values` is empty.
fn least_pressure(values: &Vec<(u128, i64, i64)>) -> (least: u128)
    ensures
        forall|i: int| 0 <= i < values.len() ==> least <= (#[trigger] values[i]).0,
        values.len() > 0 ==> exists|i: int| 0 <= i < values.len() && (#[trigger] values[i]).0 == least,
{
    let mut least: u128 = u128::MAX;
    let mut k: usize = 0;
    while k < values.len()
        invariant
            k <= values.len(),
            forall|i: int| 0 <= i < k ==> least <= (#[trigger] values[i]).0,
            k == 0 ==> least == u128::MAX,
            k > 0 ==> exists|i: int| 0 <= i < k && (#[trigger] values[i]).0 == least,
        decreases values.len() - k,
    {
        let ghost before = least;
        if values[k].0 < least {
            least = values[k].0;
        }
        proof {
            if values[k as int].0 == least {
                assert(values[k as int].0 == least);
            } else {
                let j = choose|i: int| 0 <= i < k && (#[trigger] values[i]).0 == before;
                assert(values[j].0 == least);
            }
        }
        k += 1;
    }
    least
}

/// Keeps, in their order, the ways whose pressure is the lowest among
/// `values`.
fn keep_lowest(values: &Vec<(u128, i64, i64)>) -> (lowest: Vec<(u128, i64, i64)>)
    ensures
        lowest@ == values@.filter(|way: (u128, i64, i64)| is_lowest(values@, way)),
        lowest.len() == 0 <==> values.len() == 0,
        forall|i: int| 0 <= i < lowest.len() ==> is_lowest(values@, #[trigger] lowest[i]),
{
    let least = least_pressure(values);
    let ghost ways = values@;
    let ghost keep = |way: (u128, i64, i64)| is_lowest(ways, way);
    let mut lowest: Vec<(u128, i64, i64)> = Vec::new();
    let mut k: usize = 0;
    proof {
        assert(ways.take(0) =~= Seq::empty());
        reveal(Seq::filter);
    }
    while k < values.len()
        invariant
            k <= values.len(),
            values@ == ways,
            keep == |way: (u128, i64, i64)| is_lowest(ways, way),
            forall|i: int| 0 <= i < ways.len() ==> least <= (#[trigger] ways[i]).0,
            ways.len() > 0 ==> exists|i: int| 0 <= i < ways.len() && (#[trigger] ways[i]).0 == least,
            lowest@ == ways.take(k as int).filter(keep),
            forall|i: int| 0 <= i < lowest.len() ==> is_lowest(ways, #[trigger] lowest[i]),
            forall|i: int| 0 <= i < k && (#[trigger] ways[i]).0 == least ==> lowest.len() > 0,
        decreases values.len() - k,
    {
        let way = values[k];
        proof {
            assert(ways.take(k + 1).drop_last() =~= ways.take(k as int));
            assert(ways.take(k + 1).last() == way);
            reveal(Seq::filter);
            assert(ways.contains(way));
            if way.0 == least {
                assert(is_lowest(ways, way));
            } else {
                let j = choose|i: int| 0 <= i < ways.len() && (#[trigger] ways[i]).0 == least;
                assert(ways[j].0 < way.0);
                assert(!is_lowest(ways, way));
            }
        }
        if way.0 == least {
            lowest.push(way);
        }
        k += 1;
    }
    proof {
        assert(ways.take(values.len() as int) =~= ways);
        if ways.len() > 0 {
            let j = choose|i: int| 0 <= i < ways.len() && (#[trigger] ways[i]).0 == least;
            assert(ways[j].0 == least);
        }
    }
    lowest
}

/// Appends the way into column `x`, row `y` to `values`, if the grid has
/// that cell.
fn push_way(world: &World, values: &mut Vec<(u128, i64, i64)>, x: i64, y: i64)
    requires
        world.wf(),
    ensures
        final(values)@ == old(values)@ + way_to(world, x as int, y as int),
{
    if x >= 0 && y >= 0 && (x as u64) < (world.width as u64) && (y as u64) < (world.height as u64) {
        let pressure = world.give_pressure_on_position(x as usize, y as usize);
        values.push((pressure, x, y));
        assert(values@ =~= old(values)@ + way_to(world, x as int, y as int));
    } else {
        assert(values@ =~= old(values)@ + way_to(world, x as int, y as int));
    }
}

/// Every way out of a particle's cell leads to a cell of the grid.
pub proof fn lemma_ways_in_grid(particle: &Particle, world: &World)
    requires
        world.wf(),
    ensures
        forall|i: int|
            0 <= i < particle.ways(world).len() ==> world.has_cell(
                (#[trigger] particle.ways(world)[i]).1 as int,
                particle.ways(world)[i].2 as int,
            ),
        forall|w: (u128, i64, i64)|
            particle.ways(world).contains(w) ==> world.has_cell(w.1 as int, w.2 as int),
{
    let x = particle.column();
    let y = particle.row();
    let ways = particle.ways(world);
    assert forall|i: int| 0 <= i < ways.len() implies world.has_cell(
        (#[trigger] ways[i]).1 as int,
        ways[i].2 as int,
    ) by {
        lemma_way_to_in_grid(world, x + 1, y + 1);
        lemma_way_to_in_grid(world, x + 1, y);
        lemma_way_to_in_grid(world, x + 1, y - 1);
        lemma_way_to_in_grid(world, x, y - 1);
        lemma_way_to_in_grid(world, x - 1, y - 1);
        lemma_way_to_in_grid(world, x - 1, y);
        lemma_way_to_in_grid(world, x - 1, y + 1);
    }
}

/// A way leads to a cell of the grid.
proof fn lemma_way_to_in_grid(world: &World, x: int, y: int)
    requires
        world.wf(),
    ensures
        forall|i: int|
            0 <= i < way_to(world, x, y).len() ==> world.has_cell(
                (#[trigger] way_to(world, x, y)[i]).1 as int,
                way_to(world, x, y)[i].2 as int,
            ),
{
}

} // verus!
