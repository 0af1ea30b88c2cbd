//! A rigid object: a rectangle of cells that moves as one body.

use vstd::prelude::*;
use crate::grid::World;
use crate::material::{MaterialTyp, ParticleRef};
use crate::particle::Particle;
use crate::units::{cell_index, cell_of, lemma_cell_index_shift, SCALE};

verus! {

/// A rigid cluster of cells. `position` is the anchor, the position of the
/// lower left cell; `object_grid[i][j]` is the cell in row `i`, counted from
/// the bottom, and column `j`, as its particle and two spare values.
pub struct Object {
    pub object_id: i32,
    pub is_destroyed: bool,
    pub position: [i64; 2],
    pub velocity: [i64; 2],
    pub total_object_mass: u64,
    pub object_h: usize,
    pub object_w: usize,
    pub object_grid: Vec<Vec<(Particle, u64, u128)>>,
}

/// Whether the identifiers of an object's particles are representable:
/// a hundred times the object's identifier, plus the number of the cell.
pub open spec fn ids_fit(id: i32, cells: int) -> bool {
    cells > 0 ==> i32::MIN <= id * 100 && id * 100 + cells - 1 <= i32::MAX
}

/// Whether the positions of all cells of a rectangle are representable.
pub open spec fn anchor_fits(x: int, y: int, h: usize, w: usize) -> bool {
    &&& i64::MIN <= x <= i64::MAX
    &&& i64::MIN <= y <= i64::MAX
    &&& h > 0 && w > 0 ==> x + (w - 1) * 1000 <= i64::MAX && y + (h - 1) * 1000 <= i64::MAX
}

/// The material of the test pattern in row `i`, column `j`: wood below
/// left, metal below right, stone above left, wood above right.
pub open spec fn quadrant_material(i: int, j: int) -> MaterialTyp {
    if i < 2 && j < 2 {
        MaterialTyp::Holz
    } else if i < 2 {
        MaterialTyp::Metall
    } else if j < 2 {
        MaterialTyp::Stein
    } else {
        MaterialTyp::Holz
    }
}

/// The cell, as column and row, that an entry of fragment data addresses.
pub open spec fn data_cell(entry: ([i64; 2], MaterialTyp)) -> (int, int) {
    (cell_index(entry.0[0]), cell_index(entry.0[1]))
}

/// The cell coordinate of an entry of fragment data along `axis`: the column
/// for axis 0, the row for any other.
pub open spec fn data_coord(entry: ([i64; 2], MaterialTyp), axis: int) -> int {
    if axis == 0 {
        cell_index(entry.0[0])
    } else {
        cell_index(entry.0[1])
    }
}

/// The least cell coordinate along `axis` among the entries of `data`.
pub open spec fn lowest_coord(data: Seq<([i64; 2], MaterialTyp)>, axis: int) -> int
    decreases data.len(),
{
    if data.len() == 0 {
        0
    } else if data.len() == 1 {
        data_coord(data[0], axis)
    } else if data_coord(data.last(), axis) < lowest_coord(data.drop_last(), axis) {
        data_coord(data.last(), axis)
    } else {
        lowest_coord(data.drop_last(), axis)
    }
}

/// The greatest cell coordinate along `axis` among the entries of `data`.
pub open spec fn highest_coord(data: Seq<([i64; 2], MaterialTyp)>, axis: int) -> int
    decreases data.len(),
{
    if data.len() == 0 {
        0
    } else if data.len() == 1 {
        data_coord(data[0], axis)
    } else if data_coord(data.last(), axis) > highest_coord(data.drop_last(), axis) {
        data_coord(data.last(), axis)
    } else {
        highest_coord(data.drop_last(), axis)
    }
}

/// The width, for axis 0, or height of the tight bounding box of `data`.
pub open spec fn box_extent(data: Seq<([i64; 2], MaterialTyp)>, axis: int) -> int {
    highest_coord(data, axis) - lowest_coord(data, axis) + 1
}

/// The material that `data` puts into column `x`, row `y`: that of its first
/// entry for this cell, and none where it has no entry for it.
pub open spec fn material_in(data: Seq<([i64; 2], MaterialTyp)>, x: int, y: int) -> MaterialTyp
    decreases data.len(),
{
    if data.len() == 0 {
        MaterialTyp::Luft
    } else if data_cell(data[0]) == (x, y) {
        data[0].1
    } else {
        material_in(data.drop_first(), x, y)
    }
}

/// Every entry of `data` lies between the least and the greatest coordinate,
/// which an entry each attains.
pub proof fn lemma_box_is_tight(data: Seq<([i64; 2], MaterialTyp)>, axis: int)
    requires
        data.len() > 0,
    ensures
        forall|k: int|
            0 <= k < data.len() ==> lowest_coord(data, axis) <= data_coord(#[trigger] data[k], axis)
                <= highest_coord(data, axis),
        exists|k: int| 0 <= k < data.len() && data_coord(#[trigger] data[k], axis) == lowest_coord(data, axis),
        exists|k: int| 0 <= k < data.len() && data_coord(#[trigger] data[k], axis) == highest_coord(data, axis),
        box_extent(data, axis) >= 1,
    decreases data.len(),
{
    if data.len() == 1 {
        assert(data_coord(data[0], axis) == lowest_coord(data, axis));
        assert(data_coord(data[0], axis) == highest_coord(data, axis));
    } else {
        let rest = data.drop_last();
        lemma_box_is_tight(rest, axis);
        assert forall|k: int| 0 <= k < data.len() implies lowest_coord(data, axis) <= data_coord(
            #[trigger] data[k],
            axis,
        ) <= highest_coord(data, axis) by {
            if k < rest.len() {
                assert(rest[k] == data[k]);
            }
        }
        let lo = choose|k: int|
            0 <= k < rest.len() && data_coord(#[trigger] rest[k], axis) == lowest_coord(rest, axis);
        let hi = choose|k: int|
            0 <= k < rest.len() && data_coord(#[trigger] rest[k], axis) == highest_coord(rest, axis);
        assert(rest[lo] == data[lo]);
        assert(rest[hi] == data[hi]);
        if data_coord(data.last(), axis) < lowest_coord(rest, axis) {
            assert(data_coord(data[data.len() - 1], axis) == lowest_coord(data, axis));
        } else {
            assert(data_coord(data[lo], axis) == lowest_coord(data, axis));
        }
        if data_coord(data.last(), axis) > highest_coord(rest, axis) {
            assert(data_coord(data[data.len() - 1], axis) == highest_coord(data, axis));
        } else {
            assert(data_coord(data[hi], axis) == highest_coord(data, axis));
        }
    }
}

/// A cell `(i, j)` of a rectangle `w` wide has a number below the number of
/// cells, from which row and column can be read off again.
pub proof fn lemma_cell_number(h: int, w: int, i: int, j: int)
    requires
        0 <= i < h,
        0 <= j < w,
    ensures
        0 <= i * w + j < h * w,
        (i * w + j) / w == i,
        (i * w + j) % w == j,
        i * w + w <= h * w,
        i < h * w,
        j < h * w,
{
    assert(i <= i * w) by (nonlinear_arith)
        requires
            0 <= i,
            1 <= w,
    ;
    assert(i * w + w <= h * w) by (nonlinear_arith)
        requires
            0 <= i < h,
            0 <= w,
    ;
    assert(0 <= i * w) by (nonlinear_arith)
        requires
            0 <= i,
            0 <= w,
    ;
    vstd::arithmetic::div_mod::lemma_fundamental_div_mod_converse(i * w + j, w, i, j);
}

/// A number below the number of cells of a rectangle is the number of the
/// cell in row `k / w`, column `k % w`.
pub proof fn lemma_number_cell(h: int, w: int, k: int)
    requires
        0 <= k < h * w,
        0 <= h,
        0 <= w,
    ensures
        w > 0,
        0 <= k / w < h,
        0 <= k % w < w,
        (k / w) * w + k % w == k,
{
    assert(w > 0) by (nonlinear_arith)
        requires
            0 <= k < h * w,
            0 <= w,
    ;
    vstd::arithmetic::div_mod::lemma_fundamental_div_mod(k, w);
    vstd::arithmetic::div_mod::lemma_div_pos_is_pos(k, w);
    assert(w * (k / w) == (k / w) * w) by (nonlinear_arith);
    assert(k / w < h) by (nonlinear_arith)
        requires
            (k / w) * w + k % w == k,
            0 <= k % w,
            k < h * w,
            w > 0,
    ;
}

impl Object {
    /// Whether row `i`, column `j` is a cell of the object.
    pub open spec fn has_cell(&self, i: int, j: int) -> bool {
        0 <= i < self.object_h && 0 <= j < self.object_w
    }

    /// The particle in row `i`, column `j`.
    pub open spec fn particle(&self, i: int, j: int) -> Particle {
        self.object_grid[i][j].0
    }

    /// The material in row `i`, column `j`.
    pub open spec fn material_at(&self, i: int, j: int) -> MaterialTyp {
        self.object_grid[i][j].0.material
    }

    /// Whether row `i`, column `j` is a cell of the object that holds
    /// material, not a hole.
    pub open spec fn is_filled(&self, i: int, j: int) -> bool {
        self.has_cell(i, j) && self.material_at(i, j) != MaterialTyp::Luft
    }

    /// The number of cells.
    pub open spec fn cells(&self) -> int {
        self.object_h * self.object_w
    }

    /// The mass of the first `k` cells, counted row by row from the bottom
    /// left.
    pub open spec fn mass_upto(&self, k: int) -> int
        decreases k,
    {
        if k <= 0 {
            0
        } else {
            self.mass_upto(k - 1) + self.material_at(
                (k - 1) / (self.object_w as int),
                (k - 1) % (self.object_w as int),
            ).spec_density()
        }
    }

    /// The local grid has the object's height and width, and every particle
    /// stands at its offset from the anchor.
    pub open spec fn shaped(&self) -> bool {
        &&& self.object_grid.len() == self.object_h
        &&& forall|i: int| 0 <= i < self.object_h ==> (#[trigger] self.object_grid[i]).len() == self.object_w
        &&& self.cells() <= u32::MAX
        &&& anchor_fits(self.position[0] as int, self.position[1] as int, self.object_h, self.object_w)
        &&& forall|i: int, j: int|
            self.has_cell(i, j) ==> (#[trigger] self.particle(i, j)).position[0] == self.position[0] + j
                * 1000 && self.particle(i, j).position[1] == self.position[1] + i * 1000
    }

    /// The object is shaped, and its total mass is the sum of its cells'
    /// masses.
    pub open spec fn wf(&self) -> bool {
        &&& self.shaped()
        &&& self.total_object_mass == self.mass_upto(self.cells())
    }

    /// Computes [`Object::shaped`].
    pub fn is_shaped(&self) -> (shaped: bool)
        ensures
            shaped == self.shaped(),
    {
        if self.object_grid.len() != self.object_h {
            return false;
        }
        let mut i: usize = 0;
        while i < self.object_h
            invariant
                self.object_grid.len() == self.object_h,
                i <= self.object_h,
                forall|r: int| 0 <= r < i ==> (#[trigger] self.object_grid[r]).len() == self.object_w,
            decreases self.object_h - i,
        {
            if self.object_grid[i].len() != self.object_w {
                return false;
            }
            i += 1;
        }
        assert(0 <= self.object_h * self.object_w <= 0xffff_ffff_ffff_ffff * 0xffff_ffff_ffff_ffff)
            by (nonlinear_arith)
            requires
                0 <= self.object_h <= 0xffff_ffff_ffff_ffff,
                0 <= self.object_w <= 0xffff_ffff_ffff_ffff,
        ;
        if (self.object_h as u128) * (self.object_w as u128) > 0xffff_ffff {
            return false;
        }
        if self.object_h > 0 && self.object_w > 0 {
            proof {
                lemma_cell_number(
                    self.object_h as int,
                    self.object_w as int,
                    self.object_h - 1,
                    self.object_w - 1,
                );
            }
            if self.position[0] as i128 + (self.object_w as i128 - 1) * 1000 > i64::MAX as i128
                || self.position[1] as i128 + (self.object_h as i128 - 1) * 1000 > i64::MAX as i128 {
                return false;
            }
        }
        let mut i: usize = 0;
        while i < self.object_h
            invariant
                self.object_grid.len() == self.object_h,
                forall|r: int| 0 <= r < self.object_h ==> (#[trigger] self.object_grid[r]).len() == self.object_w,
                self.cells() <= u32::MAX,
                anchor_fits(self.position[0] as int, self.position[1] as int, self.object_h, self.object_w),
                i <= self.object_h,
                forall|r: int, c: int|
                    0 <= r < i && 0 <= c < self.object_w ==> (#[trigger] self.particle(r, c)).position[0]
                        == self.position[0] + c * 1000 && self.particle(r, c).position[1] == self.position[1]
                        + r * 1000,
            decreases self.object_h - i,
        {
            let mut j: usize = 0;
            while j < self.object_w
                invariant
                    self.object_grid.len() == self.object_h,
                    forall|r: int|
                        0 <= r < self.object_h ==> (#[trigger] self.object_grid[r]).len() == self.object_w,
                    self.cells() <= u32::MAX,
                    anchor_fits(self.position[0] as int, self.position[1] as int, self.object_h, self.object_w),
                    i < self.object_h,
                    j <= self.object_w,
                    forall|r: int, c: int|
                        0 <= r < i && 0 <= c < self.object_w ==> (#[trigger] self.particle(r, c)).position[0]
                            == self.position[0] + c * 1000 && self.particle(r, c).position[1]
                            == self.position[1] + r * 1000,
                    forall|c: int|
                        0 <= c < j ==> (#[trigger] self.particle(i as int, c)).position[0] == self.position[0]
                            + c * 1000 && self.particle(i as int, c).position[1] == self.position[1] + i
                            * 1000,
                decreases self.object_w - j,
            {
                proof {
                    lemma_cell_number(self.object_h as int, self.object_w as int, i as int, j as int);
                }
                let at = self.object_grid[i][j].0.position;
                if at[0] as i128 != self.position[0] as i128 + (j as i128) * 1000 || at[1] as i128
                    != self.position[1] as i128 + (i as i128) * 1000 {
                    proof {
                        assert(self.has_cell(i as int, j as int));
                        let _ = self.particle(i as int, j as int);
                    }
                    return false;
                }
                j += 1;
            }
            i += 1;
        }
        true
    }

    /// Computes [`Object::wf`].
    pub fn is_wf(&self) -> (wf: bool)
        ensures
            wf == self.wf(),
    {
        if !self.is_shaped() {
            return false;
        }
        let mut sum_mass: u64 = 0;
        let mut i: usize = 0;
        while i < self.object_h
            invariant
                self.shaped(),
                i <= self.object_h,
                sum_mass == self.mass_upto(i * self.object_w),
            decreases self.object_h - i,
        {
            let mut j: usize = 0;
            while j < self.object_w
                invariant
                    self.shaped(),
                    i < self.object_h,
                    j <= self.object_w,
                    sum_mass == self.mass_upto(i * self.object_w + j),
                decreases self.object_w - j,
            {
                proof {
                    lemma_cell_number(self.object_h as int, self.object_w as int, i as int, j as int);
                    self.lemma_mass_upto_bounded(i * self.object_w + j + 1);
                }
                sum_mass = sum_mass + self.object_grid[i][j].0.mass();
                j += 1;
            }
            proof {
                assert(i * self.object_w + self.object_w == (i + 1) * self.object_w) by (nonlinear_arith);
            }
            i += 1;
        }
        sum_mass == self.total_object_mass
    }

    /// `after` is this object but for its total mass.
    pub open spec fn same_but_mass(&self, after: &Object) -> bool {
        &&& after.object_id == self.object_id
        &&& after.is_destroyed == self.is_destroyed
        &&& after.position == self.position
        &&& after.velocity == self.velocity
        &&& after.object_h == self.object_h
        &&& after.object_w == self.object_w
        &&& after.object_grid == self.object_grid
    }

    /// Velocity has no part in what makes an object well formed.
    pub proof fn lemma_wf_but_velocity(&self, after: &Object)
        requires
            self.wf(),
            after.position == self.position,
            after.total_object_mass == self.total_object_mass,
            after.object_h == self.object_h,
            after.object_w == self.object_w,
            after.object_grid == self.object_grid,
        ensures
            after.wf(),
    {
        assert forall|i: int, j: int| after.has_cell(i, j) implies (#[trigger] after.particle(
            i,
            j,
        )).position[0] == after.position[0] + j * 1000 && after.particle(i, j).position[1]
            == after.position[1] + i * 1000 by {
            assert(self.has_cell(i, j));
            assert(after.particle(i, j) == self.particle(i, j));
        }
        self.lemma_mass_upto_by_materials(after, self.cells());
    }

    /// The mass of any number of cells is at most that of as many cells of
    /// the heaviest material.
    pub proof fn lemma_mass_upto_bounded(&self, k: int)
        ensures
            0 <= self.mass_upto(k),
            k >= 0 ==> self.mass_upto(k) <= k * 8000,
        decreases k,
    {
        if k > 0 {
            self.lemma_mass_upto_bounded(k - 1);
        }
    }

    /// The mass of the first cells depends on the materials alone.
    pub proof fn lemma_mass_upto_by_materials(&self, other: &Object, k: int)
        requires
            self.object_w == other.object_w,
            self.object_h == other.object_h,
            0 <= k <= self.cells(),
            forall|i: int, j: int| self.has_cell(i, j) ==> self.material_at(i, j) == other.material_at(i, j),
        ensures
            self.mass_upto(k) == other.mass_upto(k),
        decreases k,
    {
        if k > 0 {
            self.lemma_mass_upto_by_materials(other, k - 1);
            lemma_number_cell(self.object_h as int, self.object_w as int, k - 1);
            assert(self.has_cell((k - 1) / (self.object_w as int), (k - 1) % (self.object_w as int)));
        }
    }

    /// The object is a fresh block of one material: well formed, alive, `h`
    /// cells high and `w` cells wide, anchored at `position`, with the
    /// velocity `velocity`. The particle in row `i`, column `j` rests within
    /// the object, and has the identifier `id * 100 + i * w + j`.
    pub open spec fn is_block(
        &self,
        id: i32,
        object_idx: usize,
        position: (int, int),
        velocity: (int, int),
        material: MaterialTyp,
        h: usize,
        w: usize,
    ) -> bool {
        &&& self.wf()
        &&& self.object_id == id
        &&& !self.is_destroyed
        &&& self.position[0] == position.0
        &&& self.position[1] == position.1
        &&& self.velocity[0] == velocity.0
        &&& self.velocity[1] == velocity.1
        &&& self.object_h == h
        &&& self.object_w == w
        &&& self.total_object_mass == h * w * material.spec_density()
        &&& forall|i: int, j: int|
            #![trigger self.particle(i, j)]
            #![trigger self.material_at(i, j)]
            self.has_cell(i, j) ==> {
                &&& self.particle(i, j).id == id * 100 + i * w + j
                &&& self.particle(i, j).velocity[0] == 0
                &&& self.particle(i, j).velocity[1] == 0
                &&& self.particle(i, j).material == material
                &&& self.particle(i, j).particle_ref == ParticleRef::InObject(object_idx, i as usize, j as usize)
                &&& self.object_grid[i][j].1 == 0
                &&& self.object_grid[i][j].2 == 0
            }
    }

    /// The object is a fresh test pattern: four by four cells of the
    /// materials of [`quadrant_material`], and else as a fresh block is.
    pub open spec fn is_quadrant(
        &self,
        id: i32,
        object_idx: usize,
        position: (int, int),
        velocity: (int, int),
    ) -> bool {
        &&& self.wf()
        &&& self.object_id == id
        &&& !self.is_destroyed
        &&& self.position[0] == position.0
        &&& self.position[1] == position.1
        &&& self.velocity[0] == velocity.0
        &&& self.velocity[1] == velocity.1
        &&& self.object_h == 4
        &&& self.object_w == 4
        &&& forall|i: int, j: int|
            #![trigger self.particle(i, j)]
            #![trigger self.material_at(i, j)]
            self.has_cell(i, j) ==> {
                &&& self.particle(i, j).id == id * 100 + i * 4 + j
                &&& self.particle(i, j).velocity[0] == 0
                &&& self.particle(i, j).velocity[1] == 0
                &&& self.particle(i, j).material == quadrant_material(i, j)
                &&& self.particle(i, j).particle_ref == ParticleRef::InObject(object_idx, i as usize, j as usize)
                &&& self.object_grid[i][j].1 == 0
                &&& self.object_grid[i][j].2 == 0
            }
    }

    /// The object is rebuilt from fragment data: well formed, alive, as
    /// large as the tight bounding box of the data and anchored at the
    /// corner of its lower left cell. Every particle has the velocity
    /// `velocity`, and the material that the data puts into its cell.
    pub open spec fn is_rebuilt(
        &self,
        id: i32,
        object_idx: usize,
        data: Seq<([i64; 2], MaterialTyp)>,
        velocity: [i64; 2],
    ) -> bool {
        &&& self.wf()
        &&& self.object_id == id
        &&& !self.is_destroyed
        &&& self.velocity == velocity
        &&& self.object_h == box_extent(data, 1)
        &&& self.object_w == box_extent(data, 0)
        &&& self.position[0] == lowest_coord(data, 0) * 1000
        &&& self.position[1] == lowest_coord(data, 1) * 1000
        &&& forall|i: int, j: int|
            #![trigger self.particle(i, j)]
            #![trigger self.material_at(i, j)]
            self.has_cell(i, j) ==> {
                &&& self.particle(i, j).id == id * 100 + i * self.object_w + j
                &&& self.particle(i, j).velocity == velocity
                &&& self.particle(i, j).material == material_in(
                    data,
                    lowest_coord(data, 0) + j,
                    lowest_coord(data, 1) + i,
                )
                &&& self.particle(i, j).particle_ref == ParticleRef::InObject(object_idx, i as usize, j as usize)
                &&& self.object_grid[i][j].1 == 0
                &&& self.object_grid[i][j].2 == 0
            }
    }

    /// An object of one material, `h` cells high and `w` cells wide, at rest
    /// within itself.
    pub fn new(
        id: i32,
        object_idx: usize,
        position: [i64; 2],
        velocity: [i64; 2],
        material: MaterialTyp,
        h: usize,
        w: usize,
    ) -> (object: Object)
        requires
            ids_fit(id, h * w),
            anchor_fits(position[0] as int, position[1] as int, h, w),
        ensures
            object.is_block(
                id,
                object_idx,
                (position[0] as int, position[1] as int),
                (velocity[0] as int, velocity[1] as int),
                material,
                h,
                w,
            ),
            object.position == position,
            object.velocity == velocity,
    {
        let mut object_grid: Vec<Vec<(Particle, u64, u128)>> = Vec::new();
        let mut total_mass: u64 = 0;
        let mut i: usize = 0;
        while i < h
            invariant
                i <= h,
                ids_fit(id, h * w),
                anchor_fits(position[0] as int, position[1] as int, h, w),
                object_grid.len() == i,
                total_mass == i * w * material.spec_density(),
                forall|r: int| 0 <= r < i ==> (#[trigger] object_grid[r]).len() == w,
                forall|r: int, c: int|
                    0 <= r < i && 0 <= c < w ==> {
                        &&& (#[trigger] object_grid[r][c]).0.id == id * 100 + r * w + c
                        &&& object_grid[r][c].0.position[0] == position[0] + c * 1000
                        &&& object_grid[r][c].0.position[1] == position[1] + r * 1000
                        &&& object_grid[r][c].0.velocity[0] == 0
                        &&& object_grid[r][c].0.velocity[1] == 0
                        &&& object_grid[r][c].0.material == material
                        &&& object_grid[r][c].0.particle_ref == ParticleRef::InObject(
                            object_idx,
                            r as usize,
                            c as usize,
                        )
                        &&& object_grid[r][c].1 == 0
                        &&& object_grid[r][c].2 == 0
                    },
            decreases h - i,
        {
            let mut row: Vec<(Particle, u64, u128)> = Vec::new();
            let mut j: usize = 0;
            while j < w
                invariant
                    i < h,
                    j <= w,
                    ids_fit(id, h * w),
                    anchor_fits(position[0] as int, position[1] as int, h, w),
                    row.len() == j,
                    total_mass == (i * w + j) * material.spec_density(),
                    forall|c: int|
                        0 <= c < j ==> {
                            &&& (#[trigger] row[c]).0.id == id * 100 + i * w + c
                            &&& row[c].0.position[0] == position[0] + c * 1000
                            &&& row[c].0.position[1] == position[1] + i * 1000
                            &&& row[c].0.velocity[0] == 0
                            &&& row[c].0.velocity[1] == 0
                            &&& row[c].0.material == material
                            &&& row[c].0.particle_ref == ParticleRef::InObject(object_idx, i, c as usize)
                            &&& row[c].1 == 0
                            &&& row[c].2 == 0
                        },
                decreases w - j,
            {
                proof {
                    lemma_cell_number(h as int, w as int, i as int, j as int);
                    assert((i * w + j + 1) * material.spec_density() == (i * w + j)
                        * material.spec_density() + material.spec_density()) by (nonlinear_arith);
                    assert((i * w + j + 1) * material.spec_density() <= (h * w) * 8000)
                        by (nonlinear_arith)
                        requires
                            0 <= i * w + j + 1 <= h * w,
                            0 <= material.spec_density() <= 8000,
                    ;
                }
                let number: i64 = (i * w + j) as i64;
                let particle = Particle::new(
                    (id as i64 * 100 + number) as i32,
                    [position[0] + (j as i64) * SCALE, position[1] + (i as i64) * SCALE],
                    [0, 0],
                    material,
                    ParticleRef::InObject(object_idx, i, j),
                );
                total_mass = total_mass + material.density();
                row.push((particle, 0, 0));
                j += 1;
            }
            proof {
                assert((i * w + w) * material.spec_density() == (i + 1) * w * material.spec_density())
                    by (nonlinear_arith);
            }
            object_grid.push(row);
            i += 1;
        }
        let object = Object {
            object_id: id,
            is_destroyed: false,
            position,
            velocity,
            total_object_mass: total_mass,
            object_h: h,
            object_w: w,
            object_grid,
        };
        proof {
            object.lemma_mass_of_uniform(material, object.cells());
        }
        object
    }

    /// The first `k` cells of an object of one material weigh `k` times its
    /// density.
    pub proof fn lemma_mass_of_uniform(&self, material: MaterialTyp, k: int)
        requires
            0 <= k <= self.cells(),
            forall|i: int, j: int| self.has_cell(i, j) ==> self.material_at(i, j) == material,
        ensures
            self.mass_upto(k) == k * material.spec_density(),
        decreases k,
    {
        if k > 0 {
            self.lemma_mass_of_uniform(material, k - 1);
            lemma_number_cell(self.object_h as int, self.object_w as int, k - 1);
            assert(self.has_cell((k - 1) / (self.object_w as int), (k - 1) % (self.object_w as int)));
            assert(k * material.spec_density() == (k - 1) * material.spec_density()
                + material.spec_density()) by (nonlinear_arith);
        } else {
            assert(k * material.spec_density() == 0) by (nonlinear_arith)
                requires
                    k == 0,
            ;
        }
    }

    /// Adds up the masses of all cells and keeps the sum as the total mass.
    pub fn calc_object_mass(&mut self) -> (sum_mass: u64)
        requires
            old(self).shaped(),
        ensures
            final(self).wf(),
            old(self).same_but_mass(final(self)),
            sum_mass == final(self).total_object_mass,
            sum_mass == old(self).mass_upto(old(self).cells()),
    {
        let mut sum_mass: u64 = 0;
        let mut i: usize = 0;
        while i < self.object_h
            invariant
                self.shaped(),
                i <= self.object_h,
                sum_mass == self.mass_upto(i * self.object_w),
            decreases self.object_h - i,
        {
            let mut j: usize = 0;
            while j < self.object_w
                invariant
                    self.shaped(),
                    i < self.object_h,
                    j <= self.object_w,
                    sum_mass == self.mass_upto(i * self.object_w + j),
                decreases self.object_w - j,
            {
                proof {
                    lemma_cell_number(self.object_h as int, self.object_w as int, i as int, j as int);
                    self.lemma_mass_upto_bounded(i * self.object_w + j + 1);
                }
                sum_mass = sum_mass + self.object_grid[i][j].0.mass();
                j += 1;
            }
            proof {
                assert(i * self.object_w + self.object_w == (i + 1) * self.object_w) by (nonlinear_arith);
            }
            i += 1;
        }
        let ghost before = *self;
        self.total_object_mass = sum_mass;
        proof {
            assert(self.object_grid == before.object_grid);
            assert forall|r: int, c: int| self.has_cell(r, c) implies (#[trigger] self.particle(
                r,
                c,
            )).position[0] == self.position[0] + c * 1000 && self.particle(r, c).position[1]
                == self.position[1] + r * 1000 by {
                assert(before.has_cell(r, c));
                assert(self.particle(r, c) == before.particle(r, c));
            }
            before.lemma_mass_upto_by_materials(self, self.cells());
        }
        sum_mass
    }

    /// The four-by-four test pattern of [`quadrant_material`].
    pub fn new_quadrant(id: i32, object_idx: usize, position: [i64; 2], velocity: [i64; 2]) -> (object:
        Object)
        requires
            ids_fit(id, 16),
            anchor_fits(position[0] as int, position[1] as int, 4, 4),
        ensures
            object.is_quadrant(
                id,
                object_idx,
                (position[0] as int, position[1] as int),
                (velocity[0] as int, velocity[1] as int),
            ),
            object.position == position,
            object.velocity == velocity,
    {
        let h: usize = 4;
        let w: usize = 4;
        let mut object_grid: Vec<Vec<(Particle, u64, u128)>> = Vec::new();
        let mut i: usize = 0;
        while i < h
            invariant
                h == 4,
                w == 4,
                i <= h,
                ids_fit(id, 16),
                anchor_fits(position[0] as int, position[1] as int, 4, 4),
                object_grid.len() == i,
                forall|r: int| 0 <= r < i ==> (#[trigger] object_grid[r]).len() == w,
                forall|r: int, c: int|
                    0 <= r < i && 0 <= c < w ==> {
                        &&& (#[trigger] object_grid[r][c]).0.id == id * 100 + r * 4 + c
                        &&& object_grid[r][c].0.position[0] == position[0] + c * 1000
                        &&& object_grid[r][c].0.position[1] == position[1] + r * 1000
                        &&& object_grid[r][c].0.velocity[0] == 0
                        &&& object_grid[r][c].0.velocity[1] == 0
                        &&& object_grid[r][c].0.material == quadrant_material(r, c)
                        &&& object_grid[r][c].0.particle_ref == ParticleRef::InObject(
                            object_idx,
                            r as usize,
                            c as usize,
                        )
                        &&& object_grid[r][c].1 == 0
                        &&& object_grid[r][c].2 == 0
                    },
            decreases h - i,
        {
            let mut row: Vec<(Particle, u64, u128)> = Vec::new();
            let mut j: usize = 0;
            while j < w
                invariant
                    h == 4,
                    w == 4,
                    i < h,
                    j <= w,
                    ids_fit(id, 16),
                    anchor_fits(position[0] as int, position[1] as int, 4, 4),
                    row.len() == j,
                    forall|c: int|
                        0 <= c < j ==> {
                            &&& (#[trigger] row[c]).0.id == id * 100 + i * 4 + c
                            &&& row[c].0.position[0] == position[0] + c * 1000
                            &&& row[c].0.position[1] == position[1] + i * 1000
                            &&& row[c].0.velocity[0] == 0
                            &&& row[c].0.velocity[1] == 0
                            &&& row[c].0.material == quadrant_material(i as int, c)
                            &&& row[c].0.particle_ref == ParticleRef::InObject(object_idx, i, c as usize)
                            &&& row[c].1 == 0
                            &&& row[c].2 == 0
                        },
                decreases w - j,
            {
                let material = if i < 2 && j < 2 {
                    MaterialTyp::Holz
                } else if i < 2 && j >= 2 {
                    MaterialTyp::Metall
                } else if i >= 2 && j < 2 {
                    MaterialTyp::Stein
                } else {
                    MaterialTyp::Holz
                };
                let number: i64 = (i * w + j) as i64;
                let particle = Particle::new(
                    (id as i64 * 100 + number) as i32,
                    [position[0] + (j as i64) * SCALE, position[1] + (i as i64) * SCALE],
                    [0, 0],
                    material,
                    ParticleRef::InObject(object_idx, i, j),
                );
                row.push((particle, 0, 0));
                j += 1;
            }
            object_grid.push(row);
            i += 1;
        }
        let mut object = Object {
            object_id: id,
            is_destroyed: false,
            position,
            velocity,
            total_object_mass: 0,
            object_h: h,
            object_w: w,
            object_grid,
        };
        object.calc_object_mass();
        object
    }

    /// An object rebuilt from the cells of a fragment, each given as its
    /// position and material: as large as the tight bounding box of the
    /// cells, anchored at the corner of its lower left cell, with a hole in
    /// every cell of the box that the data does not name.
    pub fn new_from_fragment(
        id: i32,
        object_idx: usize,
        fragment_data: &[([i64; 2], MaterialTyp)],
        velocity: [i64; 2],
    ) -> (object: Object)
        requires
            fragment_data@.len() > 0,
            ids_fit(id, box_extent(fragment_data@, 1) * box_extent(fragment_data@, 0)),
        ensures
            object.is_rebuilt(id, object_idx, fragment_data@, velocity),
    {
        let ghost data = fragment_data@;
        let (min_x, max_x, min_y, max_y) = bounding_box(fragment_data);
        proof {
            lemma_box_is_tight(data, 0);
            lemma_box_is_tight(data, 1);
            let bw = box_extent(data, 0);
            let bh = box_extent(data, 1);
            assert(bw <= bh * bw && bh <= bh * bw) by (nonlinear_arith)
                requires
                    bw >= 1,
                    bh >= 1,
            ;
        }
        let w: usize = (max_x - min_x + 1) as usize;
        let h: usize = (max_y - min_y + 1) as usize;
        let anchor_pos: [i64; 2] = [min_x * SCALE, min_y * SCALE];
        let mut object_grid: Vec<Vec<(Particle, u64, u128)>> = Vec::new();
        let mut i: usize = 0;
        while i < h
            invariant
                i <= h,
                h >= 1,
                w >= 1,
                h * w <= u32::MAX,
                ids_fit(id, h * w),
                data == fragment_data@,
                anchor_pos[0] == min_x * 1000,
                anchor_pos[1] == min_y * 1000,
                min_x + w - 1 == max_x,
                min_y + h - 1 == max_y,
                i64::MIN <= min_x * 1000,
                i64::MIN <= min_y * 1000,
                max_x * 1000 <= i64::MAX,
                max_y * 1000 <= i64::MAX,
                object_grid.len() == i,
                forall|r: int| 0 <= r < i ==> (#[trigger] object_grid[r]).len() == w,
                forall|r: int, c: int|
                    0 <= r < i && 0 <= c < w ==> {
                        &&& (#[trigger] object_grid[r][c]).0.id == id * 100 + r * w + c
                        &&& object_grid[r][c].0.position[0] == anchor_pos[0] + c * 1000
                        &&& object_grid[r][c].0.position[1] == anchor_pos[1] + r * 1000
                        &&& object_grid[r][c].0.velocity == velocity
                        &&& object_grid[r][c].0.material == material_in(data, min_x + c, min_y + r)
                        &&& object_grid[r][c].0.particle_ref == ParticleRef::InObject(
                            object_idx,
                            r as usize,
                            c as usize,
                        )
                        &&& object_grid[r][c].1 == 0
                        &&& object_grid[r][c].2 == 0
                    },
            decreases h - i,
        {
            let mut row: Vec<(Particle, u64, u128)> = Vec::new();
            let mut j: usize = 0;
            while j < w
                invariant
                    i < h,
                    j <= w,
                    h * w <= u32::MAX,
                    ids_fit(id, h * w),
                    data == fragment_data@,
                    anchor_pos[0] == min_x * 1000,
                    anchor_pos[1] == min_y * 1000,
                    min_x + w - 1 == max_x,
                    min_y + h - 1 == max_y,
                    i64::MIN <= min_x * 1000,
                    i64::MIN <= min_y * 1000,
                    max_x * 1000 <= i64::MAX,
                    max_y * 1000 <= i64::MAX,
                    row.len() == j,
                    forall|c: int|
                        0 <= c < j ==> {
                            &&& (#[trigger] row[c]).0.id == id * 100 + i * w + c
                            &&& row[c].0.position[0] == anchor_pos[0] + c * 1000
                            &&& row[c].0.position[1] == anchor_pos[1] + i * 1000
                            &&& row[c].0.velocity == velocity
                            &&& row[c].0.material == material_in(data, min_x + c, min_y + i)
                            &&& row[c].0.particle_ref == ParticleRef::InObject(object_idx, i, c as usize)
                            &&& row[c].1 == 0
                            &&& row[c].2 == 0
                        },
                decreases w - j,
            {
                proof {
                    lemma_cell_number(h as int, w as int, i as int, j as int);
                }
                let world_x: i64 = min_x + j as i64;
                let world_y: i64 = min_y + i as i64;
                let material = find_material(fragment_data, world_x, world_y);
                let number: i64 = (i * w + j) as i64;
                let particle = Particle::new(
                    (id as i64 * 100 + number) as i32,
                    [world_x * SCALE, world_y * SCALE],
                    velocity,
                    material,
                    ParticleRef::InObject(object_idx, i, j),
                );
                row.push((particle, 0, 0));
                j += 1;
            }
            object_grid.push(row);
            i += 1;
        }
        let mut object = Object {
            object_id: id,
            is_destroyed: false,
            position: anchor_pos,
            velocity,
            total_object_mass: 0,
            object_h: h,
            object_w: w,
            object_grid,
        };
        object.calc_object_mass();
        object
    }

    /// The velocity of the whole object.
    pub fn get_object_velocity(&self) -> (velocity: [i64; 2])
        ensures
            velocity == self.velocity,
    {
        self.velocity
    }

    /// The total mass that is kept for the object.
    pub fn get_object_mass(&self) -> (mass: u64)
        ensures
            mass == self.total_object_mass,
    {
        self.total_object_mass
    }

    /// The height of the local grid in cells.
    pub fn get_height(&self) -> (h: usize)
        ensures
            h == self.object_h,
    {
        self.object_h
    }

    /// The width of the local grid in cells.
    pub fn get_width(&self) -> (w: usize)
        ensures
            w == self.object_w,
    {
        self.object_w
    }

    /// The anchor: the position of the lower left cell.
    pub fn get_position(&self) -> (position: [i64; 2])
        ensures
            position == self.position,
    {
        self.position
    }

    /// The object's identifier.
    pub fn get_id(&self) -> (id: i32)
        ensures
            id == self.object_id,
    {
        self.object_id
    }

    /// The particle in row `i`, column `j`.
    pub fn get_particle_at(&self, i: usize, j: usize) -> (particle: &Particle)
        requires
            self.shaped(),
            self.has_cell(i as int, j as int),
        ensures
            *particle == self.particle(i as int, j as int),
    {
        &self.object_grid[i][j].0
    }

    /// All particles, row by row from the bottom left.
    pub fn get_object_elements(&self) -> (particles: Vec<&Particle>)
        requires
            self.shaped(),
        ensures
            particles.len() == self.cells(),
            forall|i: int, j: int|
                self.has_cell(i, j) ==> *(#[trigger] particles[i * self.object_w + j]) == self.particle(i, j),
    {
        let mut particles: Vec<&Particle> = Vec::new();
        let mut i: usize = 0;
        while i < self.object_h
            invariant
                self.shaped(),
                i <= self.object_h,
                particles.len() == i * self.object_w,
                forall|r: int, c: int|
                    0 <= r < i && 0 <= c < self.object_w ==> *(#[trigger] particles[r * self.object_w + c])
                        == self.particle(r, c),
            decreases self.object_h - i,
        {
            let mut j: usize = 0;
            while j < self.object_w
                invariant
                    self.shaped(),
                    i < self.object_h,
                    j <= self.object_w,
                    particles.len() == i * self.object_w + j,
                    forall|r: int, c: int|
                        0 <= r < self.object_h && 0 <= c < self.object_w && (r < i || (r == i && c < j))
                            ==> *(#[trigger] particles[r * self.object_w + c]) == self.particle(r, c),
                decreases self.object_w - j,
            {
                let ghost before = particles@;
                particles.push(&self.object_grid[i][j].0);
                proof {
                    let w = self.object_w as int;
                    assert forall|r: int, c: int|
                        0 <= r < self.object_h && 0 <= c < w && (r < i || (r == i && c < j + 1)) implies *(
                    #[trigger] particles[r * w + c]) == self.particle(r, c) by {
                        if r < i {
                            assert(r * w + w <= i * w) by (nonlinear_arith)
                                requires
                                    r < i,
                                    0 <= w,
                            ;
                        }
                        if r == i && c == j {
                        } else {
                            assert(particles[r * w + c] == before[r * w + c]);
                        }
                    }
                }
                j += 1;
            }
            proof {
                assert(i * self.object_w + self.object_w == (i + 1) * self.object_w) by (nonlinear_arith);
            }
            i += 1;
        }
        particles
    }

    /// The force of an impact at the given vertical velocity: the total mass
    /// times the speed, in thousandths and cut off.
    pub open spec fn impact_force(&self, velocity_before_impact: i64) -> int {
        (self.total_object_mass * (if velocity_before_impact < 0 {
            -velocity_before_impact
        } else {
            velocity_before_impact as int
        })) / 1000
    }

    /// Computes [`Object::impact_force`].
    pub fn calc_impact_force(&self, velocity_before_impact: i64) -> (force: u128)
        ensures
            force == self.impact_force(velocity_before_impact),
    {
        let v: i128 = velocity_before_impact as i128;
        let speed: u128 = if v < 0 {
            (-v) as u128
        } else {
            v as u128
        };
        let mass: u128 = self.total_object_mass as u128;
        assert(mass * speed <= 0xffff_ffff_ffff_ffff * 0x8000_0000_0000_0000) by (nonlinear_arith)
            requires
                0 <= mass <= 0xffff_ffff_ffff_ffff,
                0 <= speed <= 0x8000_0000_0000_0000,
        ;
        (mass * speed) / 1000
    }

    /// Position and material of each of the given cells, in their order.
    pub open spec fn fragment_data(&self, fragment: Seq<(usize, usize)>) -> Seq<([i64; 2], MaterialTyp)> {
        Seq::new(
            fragment.len(),
            |k: int|
                (
                    self.particle(fragment[k].0 as int, fragment[k].1 as int).position,
                    self.material_at(fragment[k].0 as int, fragment[k].1 as int),
                ),
        )
    }

    /// Computes [`Object::fragment_data`]: what is needed to rebuild a fragment
    /// as an object or a particle of its own.
    pub fn extract_fragment_data(&self, fragment: &[(usize, usize)]) -> (data: Vec<([i64; 2], MaterialTyp)>)
        requires
            self.shaped(),
            forall|k: int|
                0 <= k < fragment@.len() ==> self.has_cell(
                    (#[trigger] fragment@[k]).0 as int,
                    fragment@[k].1 as int,
                ),
        ensures
            data@ == self.fragment_data(fragment@),
    {
        let mut data: Vec<([i64; 2], MaterialTyp)> = Vec::new();
        let mut k: usize = 0;
        while k < fragment.len()
            invariant
                self.shaped(),
                k <= fragment.len(),
                forall|k: int|
                    0 <= k < fragment@.len() ==> self.has_cell(
                        (#[trigger] fragment@[k]).0 as int,
                        fragment@[k].1 as int,
                    ),
                data.len() == k,
                forall|n: int| 0 <= n < k ==> #[trigger] data[n] == self.fragment_data(fragment@)[n],
            decreases fragment.len() - k,
        {
            let (i, j) = fragment[k];
            assert(self.has_cell(fragment@[k as int].0 as int, fragment@[k as int].1 as int));
            let particle = &self.object_grid[i][j].0;
            data.push((particle.position, particle.material));
            k += 1;
        }
        assert(data@ =~= self.fragment_data(fragment@));
        data
    }

    /// Whether the cell with number `k` holds material and lies in column
    /// `x`, row `y` of the world.
    pub open spec fn lies_at(&self, k: int, x: int, y: int) -> bool {
        let i = k / (self.object_w as int);
        let j = k % (self.object_w as int);
        &&& self.material_at(i, j) != MaterialTyp::Luft
        &&& cell_index(self.particle(i, j).position[0]) == x
        &&& cell_index(self.particle(i, j).position[1]) == y
    }

    /// The last of the first `k` cells, row by row from the bottom left,
    /// that holds material and lies in column `x`, row `y` of the world.
    pub open spec fn last_at(&self, x: int, y: int, k: int) -> Option<int>
        decreases k,
    {
        if k <= 0 {
            None
        } else if self.lies_at(k - 1, x, y) {
            Some(k - 1)
        } else {
            self.last_at(x, y, k - 1)
        }
    }

    /// `after` is `before` with occupant and mass cleared in every world cell
    /// in which one of the object's first `k` cells holds material.
    pub open spec fn cleared_from(&self, before: &World, after: &World, k: int) -> bool {
        &&& after.wf()
        &&& after.height == before.height
        &&& after.width == before.width
        &&& forall|x: int, y: int|
            before.has_cell(x, y) ==> #[trigger] after.cell(x, y) == if self.last_at(x, y, k) is Some {
                (None, 0, before.cell(x, y).2)
            } else {
                before.cell(x, y)
            }
    }

    /// What the object's cell with number `k` writes into the world: its
    /// particle's reference and mass, over the pressure `p` that was there.
    pub open spec fn imprint(&self, k: int, p: u128) -> (Option<ParticleRef>, u64, u128) {
        let i = k / (self.object_w as int);
        let j = k % (self.object_w as int);
        (Some(self.particle(i, j).particle_ref), self.material_at(i, j).spec_density(), p)
    }

    /// `after` is `before` with every world cell in which one of the
    /// object's first `k` cells holds material written by the last of them.
    pub open spec fn placed_in(&self, before: &World, after: &World, k: int) -> bool {
        &&& after.wf()
        &&& after.height == before.height
        &&& after.width == before.width
        &&& forall|x: int, y: int|
            before.has_cell(x, y) ==> #[trigger] after.cell(x, y) == match self.last_at(x, y, k) {
                Some(m) => self.imprint(m, before.cell(x, y).2),
                None => before.cell(x, y),
            }
    }

    /// The world cell, as column and row, in which the object's cell in row
    /// `i`, column `j` lies.
    pub open spec fn world_cell(&self, i: int, j: int) -> (int, int) {
        (cell_index(self.particle(i, j).position[0]), cell_index(self.particle(i, j).position[1]))
    }

    /// No two cells of an object that is anchored at or above zero lie in
    /// the same world cell.
    pub proof fn lemma_world_cells_differ(&self, i: int, j: int, r: int, c: int)
        requires
            self.shaped(),
            self.position[0] >= 0,
            self.position[1] >= 0,
            self.has_cell(i, j),
            self.has_cell(r, c),
            self.world_cell(i, j) == self.world_cell(r, c),
        ensures
            i == r,
            j == c,
    {
        lemma_cell_index_shift(self.position[0], j);
        lemma_cell_index_shift(self.position[0], c);
        lemma_cell_index_shift(self.position[1], i);
        lemma_cell_index_shift(self.position[1], r);
    }

    /// Of an object that is anchored at or above zero, a cell that holds
    /// material is the last, and the only one, that lies in its world cell.
    pub proof fn lemma_last_at_own_cell(&self, i: int, j: int, k: int)
        requires
            self.shaped(),
            self.position[0] >= 0,
            self.position[1] >= 0,
            self.is_filled(i, j),
            0 <= k <= self.cells(),
        ensures
            self.last_at(self.world_cell(i, j).0, self.world_cell(i, j).1, k) == if i * self.object_w + j < k {
                Some(i * self.object_w + j)
            } else {
                None
            },
        decreases k,
    {
        if k > 0 {
            let w = self.object_w as int;
            self.lemma_last_at_own_cell(i, j, k - 1);
            lemma_number_cell(self.object_h as int, w, k - 1);
            lemma_cell_number(self.object_h as int, w, i, j);
            let r = (k - 1) / w;
            let c = (k - 1) % w;
            if self.lies_at(k - 1, self.world_cell(i, j).0, self.world_cell(i, j).1) {
                self.lemma_world_cells_differ(i, j, r, c);
            }
        }
    }

    /// A moving object that is anchored at or above zero, before and after
    /// its move, occupies its new cells alone and leaves its old cells
    /// empty: every world cell in which it holds material after the move
    /// reads that cell's reference and mass, and every world cell in which
    /// it held material before and holds none now reads unoccupied, with
    /// mass zero.
    pub proof fn lemma_object_move_exclusive(
        &self,
        world: &World,
        after: &Object,
        after_world: &World,
        i: int,
        j: int,
    )
        requires
            self.shaped(),
            world.wf(),
            self.velocity[0] != 0 || self.velocity[1] != 0,
            self.shifted(world, after, after_world),
            self.position[0] >= 0,
            self.position[1] >= 0,
            after.position[0] >= 0,
            after.position[1] >= 0,
            self.is_filled(i, j),
        ensures
            after.is_filled(i, j),
            world.has_cell(after.world_cell(i, j).0, after.world_cell(i, j).1) ==> after_world.cell(
                after.world_cell(i, j).0,
                after.world_cell(i, j).1,
            ) == (
                Some(after.particle(i, j).particle_ref),
                after.material_at(i, j).spec_density(),
                world.cell(after.world_cell(i, j).0, after.world_cell(i, j).1).2,
            ),
            world.has_cell(self.world_cell(i, j).0, self.world_cell(i, j).1) && after.last_at(
                self.world_cell(i, j).0,
                self.world_cell(i, j).1,
                after.cells(),
            ) is None ==> after_world.cell(self.world_cell(i, j).0, self.world_cell(i, j).1) == (
                None::<ParticleRef>,
                0u64,
                world.cell(self.world_cell(i, j).0, self.world_cell(i, j).1).2,
            ),
    {
        let w = self.object_w as int;
        assert(self.particle(i, j).same_body(&after.particle(i, j)));
        lemma_cell_number(self.object_h as int, w, i, j);
        after.lemma_last_at_own_cell(i, j, after.cells());
        self.lemma_last_at_own_cell(i, j, self.cells());
        let (ax, ay) = after.world_cell(i, j);
        if world.has_cell(ax, ay) {
            assert(after_world.cell(ax, ay) == after.imprint(i * w + j, world.cell(ax, ay).2));
        }
        let (ox, oy) = self.world_cell(i, j);
        if world.has_cell(ox, oy) {
            let _ = after_world.cell(ox, oy);
        }
    }

    /// Removes the object from the world: clears occupant and mass of every
    /// world cell in which a cell of the object holds material.
    pub fn clear_from_world(&self, world: &mut World)
        requires
            self.shaped(),
            old(world).wf(),
        ensures
            self.cleared_from(old(world), final(world), self.cells()),
    {
        let ghost start = *world;
        let mut i: usize = 0;
        while i < self.object_h
            invariant
                self.shaped(),
                start.wf(),
                i <= self.object_h,
                self.cleared_from(&start, world, i * self.object_w),
            decreases self.object_h - i,
        {
            let mut j: usize = 0;
            while j < self.object_w
                invariant
                    self.shaped(),
                    start.wf(),
                    i < self.object_h,
                    j <= self.object_w,
                    self.cleared_from(&start, world, i * self.object_w + j),
                decreases self.object_w - j,
            {
                let ghost k = i * self.object_w + j;
                let ghost before = *world;
                proof {
                    lemma_cell_number(self.object_h as int, self.object_w as int, i as int, j as int);
                }
                let particle = &self.object_grid[i][j].0;
                if particle.material != MaterialTyp::Luft {
                    world.vacate(particle.position);
                }
                proof {
                    assert forall|x: int, y: int| start.has_cell(x, y) implies #[trigger] world.cell(x, y)
                        == if self.last_at(x, y, k + 1) is Some {
                        (None, 0, start.cell(x, y).2)
                    } else {
                        start.cell(x, y)
                    } by {
                        assert(before.has_cell(x, y));
                        assert(before.cell(x, y) == if self.last_at(x, y, k) is Some {
                            (None, 0, start.cell(x, y).2)
                        } else {
                            start.cell(x, y)
                        });
                    }
                }
                j += 1;
            }
            proof {
                assert(i * self.object_w + self.object_w == (i + 1) * self.object_w) by (nonlinear_arith);
            }
            i += 1;
        }
    }

    /// Enters the object into the world: writes reference and mass of every
    /// cell that holds material into the world cell in which it lies.
    pub fn place_in_world(&self, world: &mut World)
        requires
            self.shaped(),
            old(world).wf(),
        ensures
            self.placed_in(old(world), final(world), self.cells()),
    {
        let ghost start = *world;
        let mut i: usize = 0;
        while i < self.object_h
            invariant
                self.shaped(),
                start.wf(),
                i <= self.object_h,
                self.placed_in(&start, world, i * self.object_w),
            decreases self.object_h - i,
        {
            let mut j: usize = 0;
            while j < self.object_w
                invariant
                    self.shaped(),
                    start.wf(),
                    i < self.object_h,
                    j <= self.object_w,
                    self.placed_in(&start, world, i * self.object_w + j),
                decreases self.object_w - j,
            {
                let ghost k = i * self.object_w + j;
                let ghost before = *world;
                proof {
                    lemma_cell_number(self.object_h as int, self.object_w as int, i as int, j as int);
                }
                let particle = &self.object_grid[i][j].0;
                if particle.material != MaterialTyp::Luft {
                    world.occupy(particle.position, particle.particle_ref, particle.mass());
                }
                proof {
                    assert forall|x: int, y: int| start.has_cell(x, y) implies #[trigger] world.cell(x, y)
                        == match self.last_at(x, y, k + 1) {
                        Some(m) => self.imprint(m, start.cell(x, y).2),
                        None => start.cell(x, y),
                    } by {
                        assert(before.has_cell(x, y));
                        assert(before.cell(x, y) == match self.last_at(x, y, k) {
                            Some(m) => self.imprint(m, start.cell(x, y).2),
                            None => start.cell(x, y),
                        });
                    }
                }
                j += 1;
            }
            proof {
                assert(i * self.object_w + self.object_w == (i + 1) * self.object_w) by (nonlinear_arith);
            }
            i += 1;
        }
    }

    /// `after` is this object with every particle at its offset from the
    /// anchor `(x, y)`, and nothing else changed.
    pub open spec fn anchored_at(&self, after: &Object, x: int, y: int) -> bool {
        &&& after.shaped()
        &&& after.object_id == self.object_id
        &&& after.is_destroyed == self.is_destroyed
        &&& after.velocity == self.velocity
        &&& after.total_object_mass == self.total_object_mass
        &&& after.object_h == self.object_h
        &&& after.object_w == self.object_w
        &&& after.position[0] == x
        &&& after.position[1] == y
        &&& forall|i: int, j: int|
            self.has_cell(i, j) ==> {
                &&& self.particle(i, j).same_body(&#[trigger] after.particle(i, j))
                &&& after.particle(i, j).velocity == self.particle(i, j).velocity
                &&& after.object_grid[i][j].1 == self.object_grid[i][j].1
                &&& after.object_grid[i][j].2 == self.object_grid[i][j].2
            }
    }

    /// Moves the anchor to `anchor` and every particle to its offset from it.
    fn reposition(&mut self, anchor: [i64; 2])
        requires
            old(self).shaped(),
            anchor_fits(anchor[0] as int, anchor[1] as int, old(self).object_h, old(self).object_w),
        ensures
            old(self).anchored_at(final(self), anchor[0] as int, anchor[1] as int),
    {
        let ghost start = *self;
        self.position = anchor;
        let mut i: usize = 0;
        while i < self.object_h
            invariant
                start.shaped(),
                anchor_fits(anchor[0] as int, anchor[1] as int, start.object_h, start.object_w),
                i <= self.object_h,
                self.object_id == start.object_id,
                self.is_destroyed == start.is_destroyed,
                self.velocity == start.velocity,
                self.total_object_mass == start.total_object_mass,
                self.object_h == start.object_h,
                self.object_w == start.object_w,
                self.position == anchor,
                self.object_grid.len() == self.object_h,
                forall|r: int| 0 <= r < self.object_h ==> (#[trigger] self.object_grid[r]).len() == self.object_w,
                forall|r: int, c: int|
                    start.has_cell(r, c) ==> {
                        &&& start.particle(r, c).same_body(&#[trigger] self.particle(r, c))
                        &&& self.particle(r, c).velocity == start.particle(r, c).velocity
                        &&& self.object_grid[r][c].1 == start.object_grid[r][c].1
                        &&& self.object_grid[r][c].2 == start.object_grid[r][c].2
                        &&& r < i ==> self.particle(r, c).position[0] == anchor[0] + c * 1000
                            && self.particle(r, c).position[1] == anchor[1] + r * 1000
                    },
            decreases self.object_h - i,
        {
            let mut j: usize = 0;
            while j < self.object_w
                invariant
                    start.shaped(),
                    anchor_fits(anchor[0] as int, anchor[1] as int, start.object_h, start.object_w),
                    i < self.object_h,
                    j <= self.object_w,
                    self.object_id == start.object_id,
                    self.is_destroyed == start.is_destroyed,
                    self.velocity == start.velocity,
                    self.total_object_mass == start.total_object_mass,
                    self.object_h == start.object_h,
                    self.object_w == start.object_w,
                    self.position == anchor,
                    self.object_grid.len() == self.object_h,
                    forall|r: int|
                        0 <= r < self.object_h ==> (#[trigger] self.object_grid[r]).len() == self.object_w,
                    forall|r: int, c: int|
                        start.has_cell(r, c) ==> {
                            &&& start.particle(r, c).same_body(&#[trigger] self.particle(r, c))
                            &&& self.particle(r, c).velocity == start.particle(r, c).velocity
                            &&& self.object_grid[r][c].1 == start.object_grid[r][c].1
                            &&& self.object_grid[r][c].2 == start.object_grid[r][c].2
                            &&& (r < i || (r == i && c < j)) ==> self.particle(r, c).position[0] == anchor[0]
                                + c * 1000 && self.particle(r, c).position[1] == anchor[1] + r * 1000
                        },
                decreases self.object_w - j,
            {
                let ghost before = *self;
                proof {
                    lemma_cell_number(self.object_h as int, self.object_w as int, i as int, j as int);
                }
                self.object_grid[i][j].0.position = [
                    anchor[0] + (j as i64) * SCALE,
                    anchor[1] + (i as i64) * SCALE,
                ];
                proof {
                    assert forall|r: int, c: int| start.has_cell(r, c) implies {
                        &&& start.particle(r, c).same_body(&#[trigger] self.particle(r, c))
                        &&& self.particle(r, c).velocity == start.particle(r, c).velocity
                        &&& self.object_grid[r][c].1 == start.object_grid[r][c].1
                        &&& self.object_grid[r][c].2 == start.object_grid[r][c].2
                        &&& (r < i || (r == i && c < j + 1)) ==> self.particle(r, c).position[0]
                            == anchor[0] + c * 1000 && self.particle(r, c).position[1] == anchor[1] + r
                            * 1000
                    } by {
                        assert(start.particle(r, c).same_body(&before.particle(r, c)));
                        if r == i && c == j {
                        } else {
                            assert(self.object_grid[r][c] == before.object_grid[r][c]);
                        }
                    }
                }
                j += 1;
            }
            i += 1;
        }
        proof {
            assert(self.cells() == start.cells());
            assert(i == self.object_h);
            assert forall|r: int, c: int| self.has_cell(r, c) implies (#[trigger] self.particle(
                r,
                c,
            )).position[0] == self.position[0] + c * 1000 && self.particle(r, c).position[1]
                == self.position[1] + r * 1000 by {
                assert(start.has_cell(r, c));
                assert(start.particle(r, c).same_body(&self.particle(r, c)));
            }
        }
    }

    /// Whether the object can move by its velocity: the positions of all its
    /// cells stay representable.
    pub open spec fn can_advance(&self) -> bool {
        anchor_fits(
            self.position[0] + self.velocity[0],
            self.position[1] + self.velocity[1],
            self.object_h,
            self.object_w,
        )
    }

    /// `after` is `before` once this object has moved and become
    /// `after_self`: cleared where the object held material, then written
    /// where it holds material now.
    pub open spec fn carried_in(&self, after_self: &Object, before: &World, after: &World) -> bool {
        &&& after.wf()
        &&& after.height == before.height
        &&& after.width == before.width
        &&& forall|x: int, y: int|
            before.has_cell(x, y) ==> #[trigger] after.cell(x, y) == match after_self.last_at(
                x,
                y,
                after_self.cells(),
            ) {
                Some(m) => after_self.imprint(m, before.cell(x, y).2),
                None => if self.last_at(x, y, self.cells()) is Some {
                    (None, 0, before.cell(x, y).2)
                } else {
                    before.cell(x, y)
                },
            }
    }

    /// What moving by its velocity makes of object and grid. An object at
    /// rest is left alone, and so is the grid. Else `after` is the object
    /// with its anchor, and every particle with it, moved by the velocity,
    /// and `after_world` is the grid cleared of the object where it was and
    /// written where it is.
    pub open spec fn shifted(&self, world: &World, after: &Object, after_world: &World) -> bool {
        if self.velocity[0] == 0 && self.velocity[1] == 0 {
            *after == *self && *after_world == *world
        } else {
            &&& after.wf()
            &&& self.anchored_at(
                after,
                self.position[0] + self.velocity[0],
                self.position[1] + self.velocity[1],
            )
            &&& self.carried_in(after, world, after_world)
        }
    }

    /// Whether the object can move by its velocity.
    pub fn can_advance_here(&self) -> (can: bool)
        ensures
            can == self.can_advance(),
    {
        let x: i128 = self.position[0] as i128 + self.velocity[0] as i128;
        let y: i128 = self.position[1] as i128 + self.velocity[1] as i128;
        if x < i64::MIN as i128 || x > i64::MAX as i128 || y < i64::MIN as i128 || y > i64::MAX as i128 {
            return false;
        }
        if self.object_w > 0 && self.object_h > 0 {
            if (self.object_w - 1) as u128 > 0x7fff_ffff_ffff_ffff || (self.object_h - 1) as u128
                > 0x7fff_ffff_ffff_ffff {
                return false;
            }
            if x + ((self.object_w - 1) as i128) * 1000 > i64::MAX as i128 || y + ((self.object_h - 1) as i128)
                * 1000 > i64::MAX as i128 {
                return false;
            }
        }
        true
    }

    /// Moves the object by its velocity: clears the world cells of all its
    /// cells that hold material, moves the anchor and with it every
    /// particle, and writes the world cells again. An object at rest is left
    /// alone, and so is the world.
    pub fn update_object_position(&mut self, world: &mut World)
        requires
            old(self).wf(),
            !old(self).is_destroyed,
            old(world).wf(),
            old(self).can_advance(),
        ensures
            old(self).shifted(old(world), final(self), final(world)),
            final(self).wf(),
            final(world).wf(),
    {
        if self.velocity[0] == 0 && self.velocity[1] == 0 {
            return ;
        }
        let ghost start = *self;
        let ghost start_world = *world;
        self.clear_from_world(world);
        let ghost cleared = *world;
        self.reposition([self.position[0] + self.velocity[0], self.position[1] + self.velocity[1]]);
        self.place_in_world(world);
        proof {
            start.lemma_mass_upto_by_materials(self, self.cells());
            assert forall|x: int, y: int| start_world.has_cell(x, y) implies #[trigger] world.cell(x, y)
                == match self.last_at(x, y, self.cells()) {
                Some(m) => self.imprint(m, start_world.cell(x, y).2),
                None => if start.last_at(x, y, start.cells()) is Some {
                    (None, 0, start_world.cell(x, y).2)
                } else {
                    start_world.cell(x, y)
                },
            } by {
                assert(cleared.has_cell(x, y));
                assert(cleared.cell(x, y).2 == start_world.cell(x, y).2);
            }
        }
    }
}

/// The least and greatest column, and the least and greatest row, of the
/// cells that the data names.
pub fn bounding_box(fragment_data: &[([i64; 2], MaterialTyp)]) -> (bounds: (i64, i64, i64, i64))
    requires
        fragment_data@.len() > 0,
    ensures
        bounds.0 == lowest_coord(fragment_data@, 0),
        bounds.1 == highest_coord(fragment_data@, 0),
        bounds.2 == lowest_coord(fragment_data@, 1),
        bounds.3 == highest_coord(fragment_data@, 1),
{
    let ghost data = fragment_data@;
    let mut min_x: i64 = cell_of(fragment_data[0].0[0]);
    let mut max_x: i64 = min_x;
    let mut min_y: i64 = cell_of(fragment_data[0].0[1]);
    let mut max_y: i64 = min_y;
    let mut k: usize = 1;
    proof {
        assert(data.take(1).len() == 1);
        assert(data.take(1)[0] == data[0]);
    }
    while k < fragment_data.len()
        invariant
            1 <= k <= fragment_data.len(),
            data == fragment_data@,
            min_x == lowest_coord(data.take(k as int), 0),
            max_x == highest_coord(data.take(k as int), 0),
            min_y == lowest_coord(data.take(k as int), 1),
            max_y == highest_coord(data.take(k as int), 1),
        decreases fragment_data.len() - k,
    {
        let x = cell_of(fragment_data[k].0[0]);
        let y = cell_of(fragment_data[k].0[1]);
        proof {
            assert(data.take(k + 1).drop_last() =~= data.take(k as int));
            assert(data.take(k + 1).last() == data[k as int]);
        }
        if x < min_x {
            min_x = x;
        }
        if x > max_x {
            max_x = x;
        }
        if y < min_y {
            min_y = y;
        }
        if y > max_y {
            max_y = y;
        }
        k += 1;
    }
    proof {
        assert(data.take(fragment_data.len() as int) =~= data);
    }
    (min_x, max_x, min_y, max_y)
}

/// Computes [`ids_fit`] for an object of `h` rows and `w` columns.
pub fn ids_fit_for(id: i32, h: u64, w: u64) -> (fit: bool)
    ensures
        fit == ids_fit(id, h * w),
{
    assert(0 <= h * w <= 0xffff_ffff_ffff_ffff * 0xffff_ffff_ffff_ffff) by (nonlinear_arith)
        requires
            0 <= h <= 0xffff_ffff_ffff_ffff,
            0 <= w <= 0xffff_ffff_ffff_ffff,
    ;
    let cells: u128 = (h as u128) * (w as u128);
    if cells == 0 {
        return true;
    }
    let base: i128 = (id as i128) * 100;
    base >= i32::MIN as i128 && cells <= 0x1_0000_0000 && base + (cells as i128) - 1 <= i32::MAX as i128
}

/// Looks up [`material_in`]: the material of the first entry of the data that
/// lies in column `x`, row `y`.
fn find_material(fragment_data: &[([i64; 2], MaterialTyp)], x: i64, y: i64) -> (material: MaterialTyp)
    ensures
        material == material_in(fragment_data@, x as int, y as int),
{
    let ghost data = fragment_data@;
    let mut k: usize = 0;
    proof {
        assert(data.skip(0) =~= data);
    }
    while k < fragment_data.len()
        invariant
            k <= fragment_data.len(),
            data == fragment_data@,
            material_in(data, x as int, y as int) == material_in(data.skip(k as int), x as int, y as int),
        decreases fragment_data.len() - k,
    {
        proof {
            assert(data.skip(k as int)[0] == data[k as int]);
            assert(data.skip(k as int).drop_first() =~= data.skip(k + 1));
        }
        if cell_of(fragment_data[k].0[0]) == x && cell_of(fragment_data[k].0[1]) == y {
            return fragment_data[k].1;
        }
        k += 1;
    }
    MaterialTyp::Luft
}

} // verus!
