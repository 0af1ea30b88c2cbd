//! A grid world of loose particles and rigid, breakable objects.
//!
//! Particles of sand or water fall and flow under gravity and under the
//! pressure of what lies above them. Objects, rectangles of cells, move as
//! one body, and break into fragments where an impact or a load exceeds the
//! strength of the bonds between their cells.
//!
//! # Numbers
//!
//! Every physical quantity is an integer count of thousandths of its unit:
//! a mass of `1500` is one and a half mass units, a velocity of `-500` is
//! half a cell per tick downward, a position of `10000` is the left or
//! lower edge of cell ten. A position addresses the cell in which it lies,
//! found by cutting off its fraction. Sums are exact: a pressure is held in
//! a type wide enough for the load of the highest column of the heaviest
//! cells, and comparisons of products are made without rounding.
//!
//! # A tick
//!
//! [`Simulation::step`] recomputes the pressure of every cell, lets every
//! particle advance, then settle under pressure, then fall or flow, gives
//! every object its tick, and tries every object at rest under the load on
//! it. The pressure that is read during a tick is the one computed at its
//! start. The one source of chance is the pick among ways of equal
//! pressure; for each rule that picks there is a function that takes the
//! pick as an argument.

mod chance;
pub mod conservation;
pub mod forest;
pub mod fracture;
pub mod fragments;
pub mod grid;
pub mod impact;
pub mod material;
pub mod object;
pub mod particle;
pub mod simulation;
pub mod units;

pub use crate::grid::World;
pub use crate::material::MaterialTyp;
pub use crate::material::ParticleRef;
pub use crate::object::Object;
pub use crate::particle::Particle;
pub use crate::simulation::FragmentEvent;
pub use crate::simulation::Simulation;
