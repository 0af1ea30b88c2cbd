//! The material catalog and the tag that names the occupant of a cell.

use vstd::prelude::*;

verus! {

/// Names the entity that occupies a grid cell, without owning it.
#[derive(Debug, Clone, Copy, PartialEq, Eq, Structural)]
pub enum ParticleRef {
    /// Index into the collection of free particles.
    Free(usize),
    /// Object index, then row and column in that object's local grid.
    InObject(usize, usize, usize),
    /// Immovable terrain.
    Static,
}

/// The kinds of material a cell can be made of.
#[derive(Debug, Clone, Copy, PartialEq, Eq, Structural)]
pub enum MaterialTyp {
    Sand,
    Stein,
    Metall,
    /// No material: fills the holes of a fragment.
    Luft,
    Wasser,
    Holz,
}

impl MaterialTyp {
    /// Resistance of the bond between two neighbours of this material, in
    /// thousandths of a force unit.
    pub open spec fn spec_binding_strength(&self) -> u64 {
        match self {
            MaterialTyp::Sand => 2_000,
            MaterialTyp::Stein => 80_000,
            MaterialTyp::Metall => 200_000,
            MaterialTyp::Luft => 0,
            MaterialTyp::Wasser => 0,
            MaterialTyp::Holz => 40_000,
        }
    }

    /// Computes [`MaterialTyp::spec_binding_strength`].
    #[verifier::when_used_as_spec(spec_binding_strength)]
    pub fn binding_strength(&self) -> (r: u64)
        ensures
            r == self.spec_binding_strength(),
    {
        match self {
            MaterialTyp::Sand => 2_000,
            MaterialTyp::Stein => 80_000,
            MaterialTyp::Metall => 200_000,
            MaterialTyp::Luft => 0,
            MaterialTyp::Wasser => 0,
            MaterialTyp::Holz => 40_000,
        }
    }

    /// Mass of one cell of this material, in thousandths of a mass unit. A
    /// cell has volume one, so density and mass per cell coincide.
    pub open spec fn spec_density(&self) -> u64 {
        match self {
            MaterialTyp::Sand => 1_500,
            MaterialTyp::Stein => 2_500,
            MaterialTyp::Metall => 8_000,
            MaterialTyp::Luft => 0,
            MaterialTyp::Wasser => 1_000,
            MaterialTyp::Holz => 600,
        }
    }

    /// Computes [`MaterialTyp::spec_density`].
    #[verifier::when_used_as_spec(spec_density)]
    pub fn density(&self) -> (r: u64)
        ensures
            r == self.spec_density(),
    {
        match self {
            MaterialTyp::Sand => 1_500,
            MaterialTyp::Stein => 2_500,
            MaterialTyp::Metall => 8_000,
            MaterialTyp::Luft => 0,
            MaterialTyp::Wasser => 1_000,
            MaterialTyp::Holz => 600,
        }
    }

    /// Whether the material keeps its shape; liquids and gases do not.
    pub open spec fn spec_is_solid(&self) -> bool {
        match self {
            MaterialTyp::Sand => true,
            MaterialTyp::Stein => true,
            MaterialTyp::Metall => true,
            MaterialTyp::Luft => false,
            MaterialTyp::Wasser => false,
            MaterialTyp::Holz => true,
        }
    }

    /// Computes [`MaterialTyp::spec_is_solid`].
    #[verifier::when_used_as_spec(spec_is_solid)]
    pub fn is_solid(&self) -> (r: bool)
        ensures
            r == self.spec_is_solid(),
    {
        match self {
            MaterialTyp::Sand => true,
            MaterialTyp::Stein => true,
            MaterialTyp::Metall => true,
            MaterialTyp::Luft => false,
            MaterialTyp::Wasser => false,
            MaterialTyp::Holz => true,
        }
    }

    /// Share of an impact that a surface of this material passes on, in
    /// thousandths: `1000` is a hard surface, `0` passes nothing on.
    pub open spec fn spec_impact_dampening(&self) -> u64 {
        match self {
            MaterialTyp::Sand => 300,
            MaterialTyp::Stein => 1_000,
            MaterialTyp::Metall => 900,
            MaterialTyp::Luft => 0,
            MaterialTyp::Wasser => 200,
            MaterialTyp::Holz => 600,
        }
    }

    /// Computes [`MaterialTyp::spec_impact_dampening`].
    #[verifier::when_used_as_spec(spec_impact_dampening)]
    pub fn impact_dampening(&self) -> (r: u64)
        ensures
            r == self.spec_impact_dampening(),
    {
        match self {
            MaterialTyp::Sand => 300,
            MaterialTyp::Stein => 1_000,
            MaterialTyp::Metall => 900,
            MaterialTyp::Luft => 0,
            MaterialTyp::Wasser => 200,
            MaterialTyp::Holz => 600,
        }
    }

    /// Display colour as red, green and blue, each in thousandths of full
    /// intensity.
    pub open spec fn spec_color(&self) -> (u64, u64, u64) {
        match self {
            MaterialTyp::Sand => (900, 750, 400),
            MaterialTyp::Stein => (500, 500, 500),
            MaterialTyp::Metall => (700, 750, 800),
            MaterialTyp::Luft => (900, 950, 1_000),
            MaterialTyp::Wasser => (200, 500, 800),
            MaterialTyp::Holz => (550, 350, 150),
        }
    }

    /// Computes [`MaterialTyp::spec_color`].
    #[verifier::when_used_as_spec(spec_color)]
    pub fn color(&self) -> (r: (u64, u64, u64))
        ensures
            r == self.spec_color(),
    {
        match self {
            MaterialTyp::Sand => (900, 750, 400),
            MaterialTyp::Stein => (500, 500, 500),
            MaterialTyp::Metall => (700, 750, 800),
            MaterialTyp::Luft => (900, 950, 1_000),
            MaterialTyp::Wasser => (200, 500, 800),
            MaterialTyp::Holz => (550, 350, 150),
        }
    }
}

/// The smaller of two strengths.
pub open spec fn weaker(a: u64, b: u64) -> u64 {
    if a <= b {
        a
    } else {
        b
    }
}

/// The force that the bond between two neighbouring cells withstands: the
/// full binding strength between equal materials, and half the weaker
/// binding strength across a change of material.
pub open spec fn bond_strength(a: MaterialTyp, b: MaterialTyp) -> u64 {
    if a == b {
        a.spec_binding_strength()
    } else {
        weaker(a.spec_binding_strength(), b.spec_binding_strength()) / 2
    }
}

/// A bond is as strong from one side as from the other.
pub proof fn lemma_bond_strength_symmetric(a: MaterialTyp, b: MaterialTyp)
    ensures
        bond_strength(a, b) == bond_strength(b, a),
{
}

} // verus!
