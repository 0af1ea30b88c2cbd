//! One tick of the whole world: pressure first, then every particle, then
//! every object, and the fragments of the objects that broke.

use vstd::prelude::*;
use crate::fragments::{pieces_of, views};
use crate::grid::World;
use crate::material::{MaterialTyp, ParticleRef};
use crate::object::{bounding_box, box_extent, ids_fit, ids_fit_for, lemma_box_is_tight, Object};
use crate::particle::Particle;
use crate::units::{MAX_EXTENT, SCALE};

verus! {

/// An object has broken: its index among the objects, and the cells of each
/// of its fragments.
pub struct FragmentEvent {
    pub object_idx: usize,
    pub fragments: Vec<Vec<(usize, usize)>>,
}

/// The grid with all that moves in it.
pub struct Simulation {
    pub world: World,
    pub particles: Vec<Particle>,
    pub objects: Vec<Object>,
    pub gravity: [i64; 2],
}

/// What a fragment has become: a free particle or an object, with its index
/// among the particles or the objects.
#[derive(Debug, Clone, Copy, PartialEq, Eq, Structural)]
pub enum Piece {
    Particle(usize),
    Object(usize),
}

/// The mass that a cell of terrain is given.
pub const STATIC_MASS: u64 = 1_000_000;

/// The three passes over the particles in a tick.
#[derive(Debug, Clone, Copy, PartialEq, Eq, Structural)]
pub enum Pass {
    /// Gravity acts, and the particle moves by its velocity.
    Advance,
    /// Pressure pushes the particle.
    Settle,
    /// The particle falls, or flows.
    Sink,
}

/// What one pass makes of one particle and the grid.
pub open spec fn passed(
    pass: Pass,
    gravity: [i64; 2],
    before: &Particle,
    world: &World,
    after: &Particle,
    after_world: &World,
) -> bool {
    match pass {
        Pass::Advance => before.advanced(gravity, world, after, after_world),
        Pass::Settle => before.settled(world, after, after_world),
        Pass::Sink => before.sunk(world, after, after_world),
    }
}

/// What one pass makes of the first `k` particles, one after another, and of
/// the grid that each of them leaves to the next.
pub open spec fn particles_passed(
    pass: Pass,
    gravity: [i64; 2],
    before: Seq<Particle>,
    after: Seq<Particle>,
    world: World,
    after_world: World,
    k: int,
) -> bool
    decreases k,
{
    if k <= 0 {
        after_world == world
    } else {
        exists|mid: World|
            {
                &&& particles_passed(pass, gravity, before, after, world, mid, k - 1)
                &&& #[trigger] passed(pass, gravity, &before[k - 1], &mid, &after[k - 1], &after_world)
            }
    }
}

/// A pass over the first `k` particles says nothing of the later ones.
pub proof fn lemma_passed_prefix(
    pass: Pass,
    gravity: [i64; 2],
    before: Seq<Particle>,
    after: Seq<Particle>,
    other: Seq<Particle>,
    world: World,
    after_world: World,
    k: int,
)
    requires
        particles_passed(pass, gravity, before, after, world, after_world, k),
        forall|n: int| 0 <= n < k ==> after[n] == other[n],
    ensures
        particles_passed(pass, gravity, before, other, world, after_world, k),
    decreases k,
{
    if k > 0 {
        let mid = choose|mid: World|
            {
                &&& particles_passed(pass, gravity, before, after, world, mid, k - 1)
                &&& #[trigger] passed(pass, gravity, &before[k - 1], &mid, &after[k - 1], &after_world)
            };
        lemma_passed_prefix(pass, gravity, before, after, other, world, mid, k - 1);
        assert(passed(pass, gravity, &before[k - 1], &mid, &other[k - 1], &after_world));
    }
}

/// What a tick makes of the first `k` objects, one after another, and of the
/// grid that each of them leaves to the next. `events` names, in their
/// order, the objects among them that broke on landing, each with its
/// fragments.
pub open spec fn objects_advanced(
    gravity: [i64; 2],
    before: Seq<Object>,
    after: Seq<Object>,
    world: World,
    after_world: World,
    events: Seq<(int, Seq<Seq<(usize, usize)>>)>,
    k: int,
) -> bool
    decreases k,
{
    if k <= 0 {
        after_world == world && events.len() == 0
    } else {
        exists|mid: World, pieces: Option<Seq<Seq<(usize, usize)>>>|
            {
                &&& #[trigger] before[k - 1].advanced(gravity, &mid, &after[k - 1], &after_world, pieces)
                &&& match pieces {
                    Some(fragments) => {
                        &&& events.len() > 0
                        &&& events.last() == (k - 1, fragments)
                        &&& objects_advanced(gravity, before, after, world, mid, events.drop_last(), k - 1)
                    },
                    None => objects_advanced(gravity, before, after, world, mid, events, k - 1),
                }
            }
    }
}

/// A tick of the first `k` objects says nothing of the later ones.
pub proof fn lemma_advanced_prefix(
    gravity: [i64; 2],
    before: Seq<Object>,
    after: Seq<Object>,
    other: Seq<Object>,
    world: World,
    after_world: World,
    events: Seq<(int, Seq<Seq<(usize, usize)>>)>,
    k: int,
)
    requires
        objects_advanced(gravity, before, after, world, after_world, events, k),
        forall|n: int| 0 <= n < k ==> after[n] == other[n],
    ensures
        objects_advanced(gravity, before, other, world, after_world, events, k),
    decreases k,
{
    if k > 0 {
        let (mid, pieces) = choose|mid: World, pieces: Option<Seq<Seq<(usize, usize)>>>|
            {
                &&& #[trigger] before[k - 1].advanced(gravity, &mid, &after[k - 1], &after_world, pieces)
                &&& match pieces {
                    Some(fragments) => {
                        &&& events.len() > 0
                        &&& events.last() == (k - 1, fragments)
                        &&& objects_advanced(gravity, before, after, world, mid, events.drop_last(), k - 1)
                    },
                    None => objects_advanced(gravity, before, after, world, mid, events, k - 1),
                }
            };
        match pieces {
            Some(fragments) => {
                lemma_advanced_prefix(gravity, before, after, other, world, mid, events.drop_last(), k - 1);
            },
            None => {
                lemma_advanced_prefix(gravity, before, after, other, world, mid, events, k - 1);
            },
        }
        assert(before[k - 1].advanced(gravity, &mid, &other[k - 1], &after_world, pieces));
    }
}

/// What load makes of the first `k` objects. `events` names, in their order,
/// the objects among them that load breaks, each with its fragments; every
/// other object is destroyed already, or withstands.
pub open spec fn objects_crushed(
    objects: Seq<Object>,
    world: World,
    events: Seq<(int, Seq<Seq<(usize, usize)>>)>,
    k: int,
) -> bool
    decreases k,
{
    if k <= 0 {
        events.len() == 0
    } else if events.len() > 0 && events.last().0 == k - 1 {
        &&& !objects[k - 1].is_destroyed
        &&& objects[k - 1].crushed_into(&world, events.last().1)
        &&& objects_crushed(objects, world, events.drop_last(), k - 1)
    } else {
        &&& objects[k - 1].is_destroyed || objects[k - 1].withstands(&world)
        &&& objects_crushed(objects, world, events, k - 1)
    }
}

/// Every event of a pass over the first `k` objects names one of them.
pub proof fn lemma_crushed_events_below(
    objects: Seq<Object>,
    world: World,
    events: Seq<(int, Seq<Seq<(usize, usize)>>)>,
    k: int,
)
    requires
        objects_crushed(objects, world, events, k),
    ensures
        forall|e: int| 0 <= e < events.len() ==> 0 <= (#[trigger] events[e]).0 < k,
    decreases k,
{
    if k > 0 {
        if events.len() > 0 && events.last().0 == k - 1 {
            lemma_crushed_events_below(objects, world, events.drop_last(), k - 1);
            assert forall|e: int| 0 <= e < events.len() implies 0 <= (#[trigger] events[e]).0 < k by {
                if e < events.len() - 1 {
                    assert(events.drop_last()[e] == events[e]);
                }
            }
        } else {
            lemma_crushed_events_below(objects, world, events, k - 1);
        }
    }
}

/// `after` is a grid of the shape of `before` that bears the same pressure
/// in every cell.
pub open spec fn same_pressure(before: &World, after: &World) -> bool {
    &&& after.wf()
    &&& after.height == before.height
    &&& after.width == before.width
    &&& forall|x: int, y: int| before.has_cell(x, y) ==> (#[trigger] after.cell(x, y)).2 == before.cell(x, y).2
}

/// No pass changes the pressure of a cell, nor what a particle is.
pub proof fn lemma_passed_keeps_pressure(
    pass: Pass,
    gravity: [i64; 2],
    before: &Particle,
    world: &World,
    after: &Particle,
    after_world: &World,
)
    requires
        world.wf(),
        passed(pass, gravity, before, world, after, after_world),
    ensures
        same_pressure(world, after_world),
        before.same_body(after),
{
    match pass {
        Pass::Advance => {},
        Pass::Settle => {
            if world.holds(before.position) {
                let way = choose|way: Option<(u128, i64, i64)>|
                    before.may_take(world, way) && #[trigger] before.carried(
                        world,
                        before.pressure_target(world, way),
                        after,
                        after_world,
                    );
                assert(before.carried(world, before.pressure_target(world, way), after, after_world));
                before.lemma_carried_keeps_grid(world, after, after_world);
            }
        },
        Pass::Sink => {
            if before.row() > 0 && !world.holds(before.position) {
            } else if before.fall_target(world, true) is Some {
                assert(before.carried(world, before.fall_target(world, true), after, after_world));
                before.lemma_carried_keeps_grid(world, after, after_world);
            } else if !world.holds(before.position) {
            } else {
                let side = choose|side: Option<(u128, i64, i64)>|
                    before.may_flow(world, side) && #[trigger] before.carried(
                        world,
                        before.flow_target(side),
                        after,
                        after_world,
                    );
                assert(before.carried(world, before.flow_target(side), after, after_world));
                before.lemma_carried_keeps_grid(world, after, after_world);
            }
        },
    }
}

/// A pass over the particles changes the pressure of no cell, and leaves
/// every particle what it was.
pub proof fn lemma_pass_keeps_pressure(
    pass: Pass,
    gravity: [i64; 2],
    before: Seq<Particle>,
    after: Seq<Particle>,
    world: World,
    after_world: World,
    k: int,
)
    requires
        world.wf(),
        particles_passed(pass, gravity, before, after, world, after_world, k),
    ensures
        same_pressure(&world, &after_world),
        forall|n: int| 0 <= n < k ==> (#[trigger] before[n]).same_body(&after[n]),
    decreases k,
{
    if k > 0 {
        let mid = choose|mid: World|
            {
                &&& particles_passed(pass, gravity, before, after, world, mid, k - 1)
                &&& #[trigger] passed(pass, gravity, &before[k - 1], &mid, &after[k - 1], &after_world)
            };
        lemma_pass_keeps_pressure(pass, gravity, before, after, world, mid, k - 1);
        lemma_passed_keeps_pressure(pass, gravity, &before[k - 1], &mid, &after[k - 1], &after_world);
        assert forall|x: int, y: int| world.has_cell(x, y) implies (#[trigger] after_world.cell(x, y)).2
            == world.cell(x, y).2 by {
            assert(mid.has_cell(x, y));
            assert(mid.cell(x, y).2 == world.cell(x, y).2);
        }
    }
}

/// The tick of an object changes the pressure of no cell.
pub proof fn lemma_advanced_keeps_pressure(
    gravity: [i64; 2],
    before: &Object,
    world: &World,
    after: &Object,
    after_world: &World,
    pieces: Option<Seq<Seq<(usize, usize)>>>,
)
    requires
        world.wf(),
        before.advanced(gravity, world, after, after_world, pieces),
    ensures
        same_pressure(world, after_world),
        after.is_destroyed == before.is_destroyed,
{
    if before.is_destroyed || !before.can_fall(gravity, world) {
    } else {
        let mid = choose|mid: Object|
            {
                &&& #[trigger] before.fell(gravity, world, &mid, pieces)
                &&& mid.wf()
                &&& if pieces is None && mid.can_advance() {
                    mid.shifted(world, after, after_world)
                } else {
                    *after == mid && *after_world == *world
                }
            };
        if pieces is None && mid.can_advance() {
            if mid.velocity[0] == 0 && mid.velocity[1] == 0 {
            } else {
                assert forall|x: int, y: int| world.has_cell(x, y) implies (#[trigger] after_world.cell(
                    x,
                    y,
                )).2 == world.cell(x, y).2 by {
                    let _ = after.last_at(x, y, after.cells());
                }
            }
        }
    }
}

/// The ticks of the objects change the pressure of no cell, and destroy no
/// object.
pub proof fn lemma_objects_keep_pressure(
    gravity: [i64; 2],
    before: Seq<Object>,
    after: Seq<Object>,
    world: World,
    after_world: World,
    events: Seq<(int, Seq<Seq<(usize, usize)>>)>,
    k: int,
)
    requires
        world.wf(),
        objects_advanced(gravity, before, after, world, after_world, events, k),
    ensures
        same_pressure(&world, &after_world),
        forall|n: int| 0 <= n < k ==> (#[trigger] after[n]).is_destroyed == before[n].is_destroyed,
        forall|e: int| 0 <= e < events.len() ==> 0 <= (#[trigger] events[e]).0 < k,
    decreases k,
{
    if k > 0 {
        let (mid, pieces) = choose|mid: World, pieces: Option<Seq<Seq<(usize, usize)>>>|
            {
                &&& #[trigger] before[k - 1].advanced(gravity, &mid, &after[k - 1], &after_world, pieces)
                &&& match pieces {
                    Some(fragments) => {
                        &&& events.len() > 0
                        &&& events.last() == (k - 1, fragments)
                        &&& objects_advanced(gravity, before, after, world, mid, events.drop_last(), k - 1)
                    },
                    None => objects_advanced(gravity, before, after, world, mid, events, k - 1),
                }
            };
        match pieces {
            Some(fragments) => {
                lemma_objects_keep_pressure(gravity, before, after, world, mid, events.drop_last(), k - 1);
                assert forall|e: int| 0 <= e < events.len() implies 0 <= (#[trigger] events[e]).0 < k by {
                    if e < events.len() - 1 {
                        assert(events.drop_last()[e] == events[e]);
                    }
                }
            },
            None => {
                lemma_objects_keep_pressure(gravity, before, after, world, mid, events, k - 1);
            },
        }
        lemma_advanced_keeps_pressure(gravity, &before[k - 1], &mid, &after[k - 1], &after_world, pieces);
        assert forall|x: int, y: int| world.has_cell(x, y) implies (#[trigger] after_world.cell(x, y)).2
            == world.cell(x, y).2 by {
            assert(mid.has_cell(x, y));
            assert(mid.cell(x, y).2 == world.cell(x, y).2);
        }
    }
}

/// The events as they read in contracts: the index of each object and the
/// cells of each of its fragments.
pub open spec fn event_views(events: Seq<FragmentEvent>) -> Seq<(int, Seq<Seq<(usize, usize)>>)> {
    Seq::new(events.len(), |e: int| (events[e].object_idx as int, views(events[e].fragments@)))
}

impl Simulation {
    /// The grid and every object are well formed.
    pub open spec fn wf(&self) -> bool {
        &&& self.world.wf()
        &&& forall|i: int| 0 <= i < self.objects.len() ==> (#[trigger] self.objects[i]).wf()
    }

    /// An empty world of the given size, under the given gravity.
    pub fn new(height: usize, width: usize, gravity: [i64; 2]) -> (sim: Simulation)
        requires
            height <= MAX_EXTENT,
            width <= MAX_EXTENT,
        ensures
            sim.wf(),
            sim.world.height == height,
            sim.world.width == width,
            forall|x: int, y: int|
                sim.world.has_cell(x, y) ==> #[trigger] sim.world.cell(x, y) == (
                    None::<ParticleRef>,
                    0u64,
                    0u128,
                ),
            sim.particles.len() == 0,
            sim.objects.len() == 0,
            sim.gravity == gravity,
    {
        Simulation { world: World::new(height, width), particles: Vec::new(), objects: Vec::new(), gravity }
    }

    /// `after` is this simulation once the pressure of every cell has been
    /// recomputed.
    pub open spec fn pressed(&self, after: &Simulation) -> bool {
        &&& after.particles == self.particles
        &&& after.objects == self.objects
        &&& after.gravity == self.gravity
        &&& after.world.wf()
        &&& after.world.height == self.world.height
        &&& after.world.width == self.world.width
        &&& after.world.pressure_settled()
        &&& forall|x: int, y: int|
            self.world.has_cell(x, y) ==> {
                &&& (#[trigger] after.world.cell(x, y)).0 == self.world.cell(x, y).0
                &&& after.world.cell(x, y).1 == self.world.cell(x, y).1
                &&& after.world.cell(x, y).2 == self.world.load(x, y)
            }
    }

    /// `after` is this simulation once one pass has gone over every
    /// particle.
    pub open spec fn passed_over(&self, pass: Pass, after: &Simulation) -> bool {
        &&& after.objects == self.objects
        &&& after.gravity == self.gravity
        &&& after.particles.len() == self.particles.len()
        &&& particles_passed(
            pass,
            self.gravity,
            self.particles@,
            after.particles@,
            self.world,
            after.world,
            self.particles.len() as int,
        )
    }

    /// `after` is this simulation once every object has had its tick;
    /// `events` are the objects that broke on landing.
    pub open spec fn objects_moved(
        &self,
        after: &Simulation,
        events: Seq<(int, Seq<Seq<(usize, usize)>>)>,
    ) -> bool {
        &&& after.particles == self.particles
        &&& after.gravity == self.gravity
        &&& after.objects.len() == self.objects.len()
        &&& objects_advanced(
            self.gravity,
            self.objects@,
            after.objects@,
            self.world,
            after.world,
            events,
            self.objects.len() as int,
        )
    }

    /// What a tick makes of the simulation: the pressure is recomputed;
    /// every particle advances; every particle settles; every particle
    /// sinks; every object has its tick; every object is tried under the
    /// load on it. `events` are the objects that broke, first those that
    /// broke on landing and then those that load broke.
    pub open spec fn stepped(&self, after: &Simulation, events: Seq<(int, Seq<Seq<(usize, usize)>>)>) -> bool {
        exists|pressed: Simulation, advanced: Simulation, settled: Simulation, sunk: Simulation, landed: Seq<
            (int, Seq<Seq<(usize, usize)>>),
        >, crushed: Seq<(int, Seq<Seq<(usize, usize)>>)>|
            {
                &&& #[trigger] self.pressed(&pressed)
                &&& #[trigger] pressed.passed_over(Pass::Advance, &advanced)
                &&& #[trigger] advanced.passed_over(Pass::Settle, &settled)
                &&& #[trigger] settled.passed_over(Pass::Sink, &sunk)
                &&& #[trigger] sunk.objects_moved(after, landed)
                &&& #[trigger] objects_crushed(after.objects@, after.world, crushed, after.objects.len() as int)
                &&& events == landed + crushed
            }
    }

    /// Through a whole tick the pressure is the snapshot that was taken at
    /// its start: after the tick every cell bears the load that its column
    /// held above it before the tick. No particle and no object is made or
    /// lost, every particle is what it was, and every event names an object
    /// of the simulation.
    pub proof fn lemma_step_keeps_snapshot(
        &self,
        after: &Simulation,
        events: Seq<(int, Seq<Seq<(usize, usize)>>)>,
    )
        requires
            self.wf(),
            self.stepped(after, events),
        ensures
            after.world.wf(),
            after.world.height == self.world.height,
            after.world.width == self.world.width,
            forall|x: int, y: int|
                self.world.has_cell(x, y) ==> (#[trigger] after.world.cell(x, y)).2 == self.world.load(x, y),
            after.gravity == self.gravity,
            after.particles.len() == self.particles.len(),
            forall|n: int|
                0 <= n < self.particles.len() ==> (#[trigger] self.particles[n]).same_body(&after.particles[n]),
            after.objects.len() == self.objects.len(),
            forall|n: int|
                0 <= n < self.objects.len() ==> (#[trigger] after.objects[n]).is_destroyed
                    == self.objects[n].is_destroyed,
            forall|e: int| 0 <= e < events.len() ==> 0 <= (#[trigger] events[e]).0 < self.objects.len(),
    {
        let (pressed, advanced, settled, sunk, landed, crushed) = choose|
            pressed: Simulation,
            advanced: Simulation,
            settled: Simulation,
            sunk: Simulation,
            landed: Seq<(int, Seq<Seq<(usize, usize)>>)>,
            crushed: Seq<(int, Seq<Seq<(usize, usize)>>)>,
        |
            {
                &&& #[trigger] self.pressed(&pressed)
                &&& #[trigger] pressed.passed_over(Pass::Advance, &advanced)
                &&& #[trigger] advanced.passed_over(Pass::Settle, &settled)
                &&& #[trigger] settled.passed_over(Pass::Sink, &sunk)
                &&& #[trigger] sunk.objects_moved(after, landed)
                &&& #[trigger] objects_crushed(after.objects@, after.world, crushed, after.objects.len() as int)
                &&& events == landed + crushed
            };
        let n = self.particles.len() as int;
        let m = self.objects.len() as int;
        lemma_pass_keeps_pressure(
            Pass::Advance,
            pressed.gravity,
            pressed.particles@,
            advanced.particles@,
            pressed.world,
            advanced.world,
            n,
        );
        lemma_pass_keeps_pressure(
            Pass::Settle,
            advanced.gravity,
            advanced.particles@,
            settled.particles@,
            advanced.world,
            settled.world,
            n,
        );
        lemma_pass_keeps_pressure(
            Pass::Sink,
            settled.gravity,
            settled.particles@,
            sunk.particles@,
            settled.world,
            sunk.world,
            n,
        );
        lemma_objects_keep_pressure(
            sunk.gravity,
            sunk.objects@,
            after.objects@,
            sunk.world,
            after.world,
            landed,
            m,
        );
        lemma_crushed_events_below(after.objects@, after.world, crushed, m);
        assert forall|x: int, y: int| self.world.has_cell(x, y) implies (#[trigger] after.world.cell(x, y)).2
            == self.world.load(x, y) by {
            assert(pressed.world.has_cell(x, y));
            assert(pressed.world.cell(x, y).2 == self.world.load(x, y));
            assert(advanced.world.cell(x, y).2 == pressed.world.cell(x, y).2);
            assert(settled.world.has_cell(x, y));
            assert(settled.world.cell(x, y).2 == advanced.world.cell(x, y).2);
            assert(sunk.world.has_cell(x, y));
            assert(sunk.world.cell(x, y).2 == settled.world.cell(x, y).2);
            assert(after.world.cell(x, y).2 == sunk.world.cell(x, y).2);
        }
        assert forall|k: int| 0 <= k < self.particles.len() implies (#[trigger] self.particles[k]).same_body(
            &after.particles[k],
        ) by {
            assert(pressed.particles@[k].same_body(&advanced.particles@[k]));
            assert(advanced.particles@[k].same_body(&settled.particles@[k]));
            assert(settled.particles@[k].same_body(&sunk.particles@[k]));
        }
        assert forall|k: int| 0 <= k < self.objects.len() implies (#[trigger] after.objects[k]).is_destroyed
            == self.objects[k].is_destroyed by {
            assert(after.objects@[k].is_destroyed == sunk.objects@[k].is_destroyed);
        }
        assert forall|e: int| 0 <= e < events.len() implies 0 <= (#[trigger] events[e]).0
            < self.objects.len() by {
            if e < landed.len() {
                assert(events[e] == landed[e]);
            } else {
                assert(events[e] == crushed[e - landed.len()]);
            }
        }
    }

    /// Recomputes the pressure of every cell.
    pub fn press(&mut self)
        requires
            old(self).wf(),
        ensures
            final(self).wf(),
            old(self).pressed(final(self)),
    {
        self.world.calc_pressure_on_all_position();
    }

    /// Lets one pass go over every particle, in the order of the particles.
    pub fn pass_particles(&mut self, pass: Pass)
        requires
            old(self).wf(),
        ensures
            final(self).wf(),
            old(self).passed_over(pass, final(self)),
    {
        let ghost start = *self;
        let mut i: usize = 0;
        while i < self.particles.len()
            invariant
                start.wf(),
                self.world.wf(),
                self.objects == start.objects,
                self.gravity == start.gravity,
                self.particles.len() == start.particles.len(),
                i <= self.particles.len(),
                particles_passed(
                    pass,
                    start.gravity,
                    start.particles@,
                    self.particles@,
                    start.world,
                    self.world,
                    i as int,
                ),
                forall|n: int| i <= n < self.particles.len() ==> self.particles[n] == start.particles[n],
            decreases self.particles.len() - i,
        {
            let ghost world_before = self.world;
            let ghost particles_before = self.particles@;
            let mut particle = self.particles[i];
            match pass {
                Pass::Advance => particle.advance(self.gravity, &mut self.world),
                Pass::Settle => particle.settle(&mut self.world),
                Pass::Sink => particle.sink(&mut self.world),
            }
            self.particles[i] = particle;
            proof {
                lemma_passed_prefix(
                    pass,
                    start.gravity,
                    start.particles@,
                    particles_before,
                    self.particles@,
                    start.world,
                    world_before,
                    i as int,
                );
                assert(particles_passed(
                    pass,
                    start.gravity,
                    start.particles@,
                    self.particles@,
                    start.world,
                    world_before,
                    i + 1 - 1,
                ));
                assert(passed(
                    pass,
                    start.gravity,
                    &start.particles@[i + 1 - 1],
                    &world_before,
                    &self.particles@[i + 1 - 1],
                    &self.world,
                ));
                assert(particles_passed(
                    pass,
                    start.gravity,
                    start.particles@,
                    self.particles@,
                    start.world,
                    self.world,
                    i + 1,
                ));
            }
            i += 1;
        }
    }

    /// Gives every object its tick, in the order of the objects, and lists
    /// those that broke on landing.
    pub fn move_objects(&mut self) -> (events: Vec<FragmentEvent>)
        requires
            old(self).wf(),
        ensures
            final(self).wf(),
            old(self).objects_moved(final(self), event_views(events@)),
    {
        let ghost start = *self;
        let mut events: Vec<FragmentEvent> = Vec::new();
        let mut i: usize = 0;
        while i < self.objects.len()
            invariant
                start.wf(),
                self.wf(),
                self.particles == start.particles,
                self.gravity == start.gravity,
                self.objects.len() == start.objects.len(),
                i <= self.objects.len(),
                objects_advanced(
                    start.gravity,
                    start.objects@,
                    self.objects@,
                    start.world,
                    self.world,
                    event_views(events@),
                    i as int,
                ),
                forall|n: int| i <= n < self.objects.len() ==> self.objects[n] == start.objects[n],
            decreases self.objects.len() - i,
        {
            let ghost world_before = self.world;
            let ghost objects_before = self.objects@;
            let ghost events_before = event_views(events@);
            assert(self.objects[i as int].wf());
            let fragments = self.objects[i].advance(self.gravity, &mut self.world);
            let ghost pieces = pieces_of(fragments);
            proof {
                lemma_advanced_prefix(
                    start.gravity,
                    start.objects@,
                    objects_before,
                    self.objects@,
                    start.world,
                    world_before,
                    events_before,
                    i as int,
                );
                assert forall|n: int| 0 <= n < self.objects.len() implies (#[trigger] self.objects[n]).wf() by {
                    if n != i {
                        assert(self.objects[n] == objects_before[n]);
                    }
                }
            }
            match fragments {
                Some(fragments) => {
                    events.push(FragmentEvent { object_idx: i, fragments });
                    proof {
                        assert(event_views(events@).drop_last() =~= events_before);
                        assert(event_views(events@).last() == (i as int, pieces->0));
                    }
                },
                None => {
                    proof {
                        assert(event_views(events@) =~= events_before);
                    }
                },
            }
            proof {
                let now = event_views(events@);
                assert(start.objects@[i + 1 - 1].advanced(
                    start.gravity,
                    &world_before,
                    &self.objects@[i + 1 - 1],
                    &self.world,
                    pieces,
                ));
                assert(match pieces {
                    Some(fragments) => {
                        &&& now.len() > 0
                        &&& now.last() == (i + 1 - 1, fragments)
                        &&& objects_advanced(
                            start.gravity,
                            start.objects@,
                            self.objects@,
                            start.world,
                            world_before,
                            now.drop_last(),
                            i + 1 - 1,
                        )
                    },
                    None => objects_advanced(
                        start.gravity,
                        start.objects@,
                        self.objects@,
                        start.world,
                        world_before,
                        now,
                        i + 1 - 1,
                    ),
                });
                assert(objects_advanced(
                    start.gravity,
                    start.objects@,
                    self.objects@,
                    start.world,
                    self.world,
                    now,
                    i + 1,
                ));
            }
            i += 1;
        }
        events
    }

    /// Tries every object under the load on it, in the order of the
    /// objects, and lists those that load breaks.
    pub fn crush_objects(&self) -> (events: Vec<FragmentEvent>)
        requires
            self.wf(),
        ensures
            objects_crushed(self.objects@, self.world, event_views(events@), self.objects.len() as int),
    {
        let mut events: Vec<FragmentEvent> = Vec::new();
        let mut i: usize = 0;
        while i < self.objects.len()
            invariant
                self.wf(),
                i <= self.objects.len(),
                objects_crushed(self.objects@, self.world, event_views(events@), i as int),
            decreases self.objects.len() - i,
        {
            let ghost events_before = event_views(events@);
            proof {
                lemma_crushed_events_below(self.objects@, self.world, events_before, i as int);
                assert(self.objects[i as int].wf());
            }
            if !self.objects[i].is_destroyed {
                match self.objects[i].crush(&self.world) {
                    Some(fragments) => {
                        events.push(FragmentEvent { object_idx: i, fragments });
                        proof {
                            assert(event_views(events@).drop_last() =~= events_before);
                        }
                    },
                    None => {
                        proof {
                            if events_before.len() > 0 {
                                assert(events_before.last() == events_before[events_before.len() - 1]);
                            }
                        }
                    },
                }
            } else {
                proof {
                    if events_before.len() > 0 {
                        assert(events_before.last() == events_before[events_before.len() - 1]);
                    }
                }
            }
            i += 1;
        }
        events
    }

    /// Advances the world by one tick, and lists the objects that broke in
    /// it. The fragments are left for the caller to turn into particles and
    /// objects of their own.
    pub fn step(&mut self) -> (events: Vec<FragmentEvent>)
        requires
            old(self).wf(),
        ensures
            final(self).wf(),
            old(self).stepped(final(self), event_views(events@)),
    {
        self.press();
        let ghost pressed = *self;
        self.pass_particles(Pass::Advance);
        let ghost advanced = *self;
        self.pass_particles(Pass::Settle);
        let ghost settled = *self;
        self.pass_particles(Pass::Sink);
        let ghost sunk = *self;
        let mut events = self.move_objects();
        let ghost landed = event_views(events@);
        let mut crushed = self.crush_objects();
        let ghost crushed_views = event_views(crushed@);
        events.append(&mut crushed);
        proof {
            assert(event_views(events@) =~= landed + crushed_views);
            assert(old(self).pressed(&pressed));
            assert(pressed.passed_over(Pass::Advance, &advanced));
            assert(advanced.passed_over(Pass::Settle, &settled));
            assert(settled.passed_over(Pass::Sink, &sunk));
            assert(sunk.objects_moved(self, landed));
            assert(objects_crushed(self.objects@, self.world, crushed_views, self.objects.len() as int));
        }
        events
    }

    /// `after` is this simulation with another grid and nothing else
    /// changed.
    pub open spec fn same_but_world(&self, after: &Simulation) -> bool {
        &&& after.particles == self.particles
        &&& after.objects == self.objects
        &&& after.gravity == self.gravity
    }

    /// Turns the cell in column `x`, row `y` into terrain. A cell off the
    /// grid is passed over.
    pub fn place_static(&mut self, x: usize, y: usize)
        requires
            old(self).wf(),
        ensures
            final(self).wf(),
            old(self).same_but_world(final(self)),
            !old(self).world.has_cell(x as int, y as int) ==> final(self).world == old(self).world,
            old(self).world.has_cell(x as int, y as int) ==> {
                &&& final(self).world.height == old(self).world.height
                &&& final(self).world.width == old(self).world.width
                &&& forall|cx: int, cy: int|
                    old(self).world.has_cell(cx, cy) ==> #[trigger] final(self).world.cell(cx, cy) == if cx
                        == x && cy == y {
                        (Some(ParticleRef::Static), STATIC_MASS, old(self).world.cell(cx, cy).2)
                    } else {
                        old(self).world.cell(cx, cy)
                    }
            },
    {
        if x < self.world.width && y < self.world.height {
            self.world.occupy([x as i64 * SCALE, y as i64 * SCALE], ParticleRef::Static, STATIC_MASS);
        }
    }

    /// Puts a new particle at rest into the cell in column `x`, row `y`, and
    /// gives its index. Nothing is done, and nothing given, where that cell
    /// lies off the grid or is occupied.
    pub fn spawn_particle(&mut self, id: i32, x: usize, y: usize, material: MaterialTyp) -> (index: Option<
        usize,
    >)
        requires
            old(self).wf(),
        ensures
            final(self).wf(),
            final(self).objects == old(self).objects,
            final(self).gravity == old(self).gravity,
            index is Some <==> old(self).world.has_cell(x as int, y as int) && old(self).world.cell(
                x as int,
                y as int,
            ).0 is None,
            index is None ==> *final(self) == *old(self),
            index matches Some(n) ==> {
                &&& n == old(self).particles.len()
                &&& final(self).particles@ == old(self).particles@.push(final(self).particles[n as int])
                &&& final(self).particles[n as int].id == id
                &&& final(self).particles[n as int].position[0] == x * 1000
                &&& final(self).particles[n as int].position[1] == y * 1000
                &&& final(self).particles[n as int].velocity[0] == 0
                &&& final(self).particles[n as int].velocity[1] == 0
                &&& final(self).particles[n as int].material == material
                &&& final(self).particles[n as int].particle_ref == ParticleRef::Free(n)
                &&& final(self).world.height == old(self).world.height
                &&& final(self).world.width == old(self).world.width
                &&& forall|cx: int, cy: int|
                    old(self).world.has_cell(cx, cy) ==> #[trigger] final(self).world.cell(cx, cy) == if cx
                        == x && cy == y {
                        (Some(ParticleRef::Free(n)), material.spec_density(), old(self).world.cell(cx, cy).2)
                    } else {
                        old(self).world.cell(cx, cy)
                    }
            },
    {
        if x >= self.world.width || y >= self.world.height {
            return None;
        }
        if self.world.give_occupation_on_position(x, y).is_some() {
            return None;
        }
        let index = self.particles.len();
        let particle = Particle::new(
            id,
            [x as i64 * SCALE, y as i64 * SCALE],
            [0, 0],
            material,
            ParticleRef::Free(index),
        );
        self.world.occupy(particle.position, particle.particle_ref, particle.mass());
        self.particles.push(particle);
        Some(index)
    }

    /// Takes a new object into the simulation and enters it into the grid.
    fn take_in(&mut self, object: Object) -> (index: usize)
        requires
            old(self).wf(),
            object.wf(),
        ensures
            final(self).wf(),
            final(self).particles == old(self).particles,
            final(self).gravity == old(self).gravity,
            index == old(self).objects.len(),
            final(self).objects@ == old(self).objects@.push(object),
            object.placed_in(&old(self).world, &final(self).world, object.cells()),
    {
        let index = self.objects.len();
        object.place_in_world(&mut self.world);
        self.objects.push(object);
        proof {
            assert forall|n: int| 0 <= n < self.objects.len() implies (#[trigger] self.objects[n]).wf() by {
                if n < index {
                    assert(self.objects[n] == old(self).objects[n]);
                }
            }
        }
        index
    }

    /// Puts a new block of one material, at rest, with its lower left cell
    /// into column `x`, row `y`, and gives its index. Nothing is done, and
    /// nothing given, where the block would leave the grid or meet an
    /// occupied cell, or where the identifiers of its particles are not
    /// representable.
    pub fn spawn_block(
        &mut self,
        id: i32,
        x: usize,
        y: usize,
        material: MaterialTyp,
        h: usize,
        w: usize,
    ) -> (index: Option<usize>)
        requires
            old(self).wf(),
        ensures
            final(self).wf(),
            final(self).particles == old(self).particles,
            final(self).gravity == old(self).gravity,
            index is Some <==> ids_fit(id, h * w) && old(self).world.has_cell(x as int, y as int) && old(
                self,
            ).world.rect_free(x as int, y as int, h as int, w as int),
            index is None ==> *final(self) == *old(self),
            index matches Some(n) ==> {
                &&& n == old(self).objects.len()
                &&& final(self).objects@ == old(self).objects@.push(final(self).objects[n as int])
                &&& final(self).objects[n as int].is_block(id, n, (x * 1000, y * 1000), (0, 0), material, h, w)
                &&& final(self).objects[n as int].placed_in(
                    &old(self).world,
                    &final(self).world,
                    final(self).objects[n as int].cells(),
                )
            },
    {
        if x >= self.world.width || y >= self.world.height || !self.world.is_rect_free(x, y, h, w)
            || !ids_fit_for(id, h as u64, w as u64) {
            return None;
        }
        proof {
            if h > 0 && w > 0 {
                assert(self.world.has_cell(x + w - 1, y + h - 1)) by {
                    let _ = self.world.cell(x + w - 1, y + h - 1);
                }
            }
        }
        let index = self.objects.len();
        let object = Object::new(id, index, [x as i64 * SCALE, y as i64 * SCALE], [0, 0], material, h, w);
        Some(self.take_in(object))
    }

    /// Puts a new test pattern, at rest, with its lower left cell into column
    /// `x`, row `y`, and gives its index. Nothing is done, and nothing given,
    /// where the pattern would leave the grid or meet an occupied cell, or
    /// where the identifiers of its particles are not representable.
    pub fn spawn_quadrant(&mut self, id: i32, x: usize, y: usize) -> (index: Option<usize>)
        requires
            old(self).wf(),
        ensures
            final(self).wf(),
            final(self).particles == old(self).particles,
            final(self).gravity == old(self).gravity,
            index is Some <==> ids_fit(id, 16) && old(self).world.rect_free(x as int, y as int, 4, 4),
            index is None ==> *final(self) == *old(self),
            index matches Some(n) ==> {
                &&& n == old(self).objects.len()
                &&& final(self).objects@ == old(self).objects@.push(final(self).objects[n as int])
                &&& final(self).objects[n as int].is_quadrant(id, n, (x * 1000, y * 1000), (0, 0))
                &&& final(self).objects[n as int].placed_in(
                    &old(self).world,
                    &final(self).world,
                    final(self).objects[n as int].cells(),
                )
            },
    {
        if !self.world.is_rect_free(x, y, 4, 4) || !ids_fit_for(id, 4, 4) {
            return None;
        }
        proof {
            assert(self.world.has_cell(x + 3, y + 3)) by {
                let _ = self.world.cell(x + 3, y + 3);
            }
        }
        let index = self.objects.len();
        let object = Object::new_quadrant(id, index, [x as i64 * SCALE, y as i64 * SCALE], [0, 0]);
        Some(self.take_in(object))
    }

    /// Whether the fragments of an event can be taken out of the
    /// simulation: the event names an object that is there and alive, and
    /// cells of that object only.
    pub open spec fn can_shatter(&self, event: &FragmentEvent) -> bool {
        &&& event.object_idx < self.objects.len()
        &&& !self.objects[event.object_idx as int].is_destroyed
        &&& forall|f: int, p: int|
            0 <= f < event.fragments.len() && 0 <= p < event.fragments[f].len() ==> self.objects[event.object_idx as int].has_cell(
                (#[trigger] event.fragments[f][p]).0 as int,
                event.fragments[f][p].1 as int,
            )
    }

    /// Computes [`Simulation::can_shatter`].
    pub fn can_shatter_now(&self, event: &FragmentEvent) -> (can: bool)
        requires
            self.wf(),
        ensures
            can == self.can_shatter(event),
    {
        if event.object_idx >= self.objects.len() {
            return false;
        }
        let object = &self.objects[event.object_idx];
        if object.is_destroyed {
            return false;
        }
        let mut f: usize = 0;
        while f < event.fragments.len()
            invariant
                event.object_idx < self.objects.len(),
                *object == self.objects[event.object_idx as int],
                f <= event.fragments.len(),
                forall|g: int, p: int|
                    0 <= g < f && 0 <= p < event.fragments[g].len() ==> object.has_cell(
                        (#[trigger] event.fragments[g][p]).0 as int,
                        event.fragments[g][p].1 as int,
                    ),
            decreases event.fragments.len() - f,
        {
            let mut p: usize = 0;
            while p < event.fragments[f].len()
                invariant
                    event.object_idx < self.objects.len(),
                    *object == self.objects[event.object_idx as int],
                    f < event.fragments.len(),
                    p <= event.fragments[f as int].len(),
                    forall|g: int, q: int|
                        0 <= g < f && 0 <= q < event.fragments[g].len() ==> object.has_cell(
                            (#[trigger] event.fragments[g][q]).0 as int,
                            event.fragments[g][q].1 as int,
                        ),
                    forall|q: int|
                        0 <= q < p ==> object.has_cell(
                            (#[trigger] event.fragments[f as int][q]).0 as int,
                            event.fragments[f as int][q].1 as int,
                        ),
                decreases event.fragments[f as int].len() - p,
            {
                let cell = event.fragments[f][p];
                if cell.0 >= object.object_h || cell.1 >= object.object_w {
                    proof {
                        assert(!object.has_cell(
                            event.fragments[f as int][p as int].0 as int,
                            event.fragments[f as int][p as int].1 as int,
                        ));
                    }
                    return false;
                }
                p += 1;
            }
            f += 1;
        }
        true
    }

    /// Takes a broken object out of the simulation: clears it from the grid
    /// and marks it destroyed. Gives the data of each of its fragments and
    /// the velocity that it had. Nothing is done, and nothing given, where
    /// the event cannot be acted on.
    pub fn shatter(&mut self, event: &FragmentEvent) -> (parts: Option<
        (Vec<Vec<([i64; 2], MaterialTyp)>>, [i64; 2]),
    >)
        requires
            old(self).wf(),
        ensures
            final(self).wf(),
            final(self).particles == old(self).particles,
            final(self).gravity == old(self).gravity,
            final(self).objects.len() == old(self).objects.len(),
            parts is Some <==> old(self).can_shatter(event),
            parts is None ==> *final(self) == *old(self),
            parts matches Some((data, velocity)) ==> {
                let object = old(self).objects[event.object_idx as int];
                &&& velocity == object.velocity
                &&& data.len() == event.fragments.len()
                &&& forall|f: int|
                    0 <= f < data.len() ==> (#[trigger] data[f])@ == object.fragment_data(event.fragments[f]@)
                &&& final(self).objects[event.object_idx as int].is_destroyed
                &&& final(self).objects[event.object_idx as int].object_grid == object.object_grid
                &&& final(self).objects[event.object_idx as int].position == object.position
                &&& final(self).objects[event.object_idx as int].velocity == object.velocity
                &&& final(self).objects[event.object_idx as int].object_id == object.object_id
                &&& final(self).objects[event.object_idx as int].total_object_mass == object.total_object_mass
                &&& forall|n: int|
                    0 <= n < old(self).objects.len() && n != event.object_idx ==> final(self).objects[n]
                        == old(self).objects[n]
                &&& object.cleared_from(&old(self).world, &final(self).world, object.cells())
            },
    {
        if !self.can_shatter_now(event) {
            return None;
        }
        let index = event.object_idx;
        let ghost start = *self;
        assert(self.objects[index as int].wf());
        let velocity = self.objects[index].get_object_velocity();
        let mut data: Vec<Vec<([i64; 2], MaterialTyp)>> = Vec::new();
        let mut f: usize = 0;
        while f < event.fragments.len()
            invariant
                *self == start,
                start.can_shatter(event),
                index == event.object_idx,
                self.objects[index as int].wf(),
                f <= event.fragments.len(),
                data.len() == f,
                forall|g: int|
                    0 <= g < f ==> (#[trigger] data[g])@ == self.objects[index as int].fragment_data(
                        event.fragments[g]@,
                    ),
            decreases event.fragments.len() - f,
        {
            proof {
                assert forall|p: int| 0 <= p < event.fragments[f as int]@.len() implies self.objects[index as int].has_cell(
                    (#[trigger] event.fragments[f as int]@[p]).0 as int,
                    event.fragments[f as int]@[p].1 as int,
                ) by {
                    assert(self.objects[index as int].has_cell(
                        event.fragments[f as int][p].0 as int,
                        event.fragments[f as int][p].1 as int,
                    ));
                }
            }
            let one = self.objects[index].extract_fragment_data(event.fragments[f].as_slice());
            data.push(one);
            f += 1;
        }
        self.objects[index].clear_from_world(&mut self.world);
        self.objects[index].is_destroyed = true;
        proof {
            start.objects[index as int].lemma_wf_but_velocity(&self.objects[index as int]);
            assert forall|n: int| 0 <= n < self.objects.len() implies (#[trigger] self.objects[n]).wf() by {
                if n != index {
                    assert(self.objects[n] == start.objects[n]);
                }
            }
        }
        Some((data, velocity))
    }

    /// Whether the data of a fragment can be turned into an entity: there
    /// is a cell in it, and, where there are several, the identifiers of the
    /// particles of the object that they make are representable.
    pub open spec fn can_materialize(data: Seq<([i64; 2], MaterialTyp)>, object_id: i32) -> bool {
        &&& data.len() > 0
        &&& data.len() > 1 ==> ids_fit(object_id, box_extent(data, 1) * box_extent(data, 0))
    }

    /// Turns the data of a fragment into an entity of its own and enters it
    /// into the grid: a fragment of one cell becomes a free particle at rest
    /// with the identifier `particle_id`, a larger one becomes an object
    /// with the identifier `object_id` and the given velocity. Nothing is
    /// done, and nothing given, where the data cannot be turned into an
    /// entity.
    pub fn materialize(
        &mut self,
        data: &[([i64; 2], MaterialTyp)],
        velocity: [i64; 2],
        particle_id: i32,
        object_id: i32,
    ) -> (piece: Option<Piece>)
        requires
            old(self).wf(),
        ensures
            final(self).wf(),
            final(self).gravity == old(self).gravity,
            piece is Some <==> Self::can_materialize(data@, object_id),
            piece is None ==> *final(self) == *old(self),
            piece is Some && data@.len() == 1 ==> {
                let n = old(self).particles.len() as int;
                &&& piece == Some(Piece::Particle(n as usize))
                &&& final(self).objects == old(self).objects
                &&& final(self).particles@ == old(self).particles@.push(final(self).particles[n])
                &&& final(self).particles[n].id == particle_id
                &&& final(self).particles[n].position == data@[0].0
                &&& final(self).particles[n].velocity[0] == 0
                &&& final(self).particles[n].velocity[1] == 0
                &&& final(self).particles[n].material == data@[0].1
                &&& final(self).particles[n].particle_ref == ParticleRef::Free(n as usize)
                &&& old(self).world.moved(
                    &final(self).world,
                    data@[0].0,
                    data@[0].0,
                    ParticleRef::Free(n as usize),
                    data@[0].1.spec_density(),
                )
            },
            piece is Some && data@.len() > 1 ==> {
                let n = old(self).objects.len() as int;
                &&& piece == Some(Piece::Object(n as usize))
                &&& final(self).particles == old(self).particles
                &&& final(self).objects@ == old(self).objects@.push(final(self).objects[n])
                &&& final(self).objects[n].is_rebuilt(object_id, n as usize, data@, velocity)
                &&& final(self).objects[n].placed_in(
                    &old(self).world,
                    &final(self).world,
                    final(self).objects[n].cells(),
                )
            },
    {
        if data.len() == 0 {
            return None;
        }
        if data.len() == 1 {
            let index = self.particles.len();
            let (position, material) = data[0];
            let particle = Particle::new(particle_id, position, [0, 0], material, ParticleRef::Free(index));
            self.world.relocate(position, position, particle.particle_ref, particle.mass());
            self.particles.push(particle);
            Some(Piece::Particle(index))
        } else {
            let (min_x, max_x, min_y, max_y) = bounding_box(data);
            proof {
                lemma_box_is_tight(data@, 0);
                lemma_box_is_tight(data@, 1);
            }
            let w: u64 = (max_x as i128 - min_x as i128 + 1) as u64;
            let h: u64 = (max_y as i128 - min_y as i128 + 1) as u64;
            if !ids_fit_for(object_id, h, w) {
                return None;
            }
            let index = self.objects.len();
            let object = Object::new_from_fragment(object_id, index, data, velocity);
            Some(Piece::Object(self.take_in(object)))
        }
    }

    /// Computes [`Simulation::wf`].
    pub fn is_wf(&self) -> (wf: bool)
        ensures
            wf == self.wf(),
    {
        if !self.world.is_wf() {
            return false;
        }
        let mut i: usize = 0;
        while i < self.objects.len()
            invariant
                i <= self.objects.len(),
                forall|n: int| 0 <= n < i ==> (#[trigger] self.objects[n]).wf(),
            decreases self.objects.len() - i,
        {
            if !self.objects[i].is_wf() {
                return false;
            }
            i += 1;
        }
        true
    }
}

} // verus!
