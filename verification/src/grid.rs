//! The world grid: who occupies each cell, how much mass lies in it, and
//! the pressure that the column above puts on it.

use vstd::prelude::*;
use crate::material::ParticleRef;
use crate::units::{cell_index, cell_of, MAX_EXTENT};

verus! {

/// The grid of cells. A cell is its occupant, its mass and its pressure;
/// `grid[y][x]` is the cell in row `y`, counted from the floor, and column
/// `x`.
pub struct World {
    pub height: usize,
    pub width: usize,
    pub grid: Vec<Vec<(Option<ParticleRef>, u64, u128)>>,
}

impl World {
    /// The grid has `height` rows of `width` cells each, and no more rows or
    /// columns than positions can address.
    pub open spec fn wf(&self) -> bool {
        &&& self.grid.len() == self.height
        &&& forall|y: int| 0 <= y < self.height ==> (#[trigger] self.grid[y]).len() == self.width
        &&& self.height <= MAX_EXTENT
        &&& self.width <= MAX_EXTENT
    }

    /// Whether column `x`, row `y` is a cell of the grid.
    pub open spec fn has_cell(&self, x: int, y: int) -> bool {
        0 <= x < self.width && 0 <= y < self.height
    }

    /// Whether a position addresses a cell of the grid.
    pub open spec fn holds(&self, pos: [i64; 2]) -> bool {
        self.has_cell(cell_index(pos[0]), cell_index(pos[1]))
    }

    /// The cell in column `x`, row `y`.
    pub open spec fn cell(&self, x: int, y: int) -> (Option<ParticleRef>, u64, u128) {
        self.grid[y][x]
    }

    /// Total mass in column `x` from row `y` up to the top of the grid.
    pub open spec fn load(&self, x: int, y: int) -> int
        decreases self.height - y,
    {
        if y < 0 || y >= self.height {
            0
        } else {
            self.cell(x, y).1 + self.load(x, y + 1)
        }
    }

    /// Every cell's pressure is the load of its column from that cell up.
    pub open spec fn pressure_settled(&self) -> bool {
        forall|x: int, y: int| self.has_cell(x, y) ==> (#[trigger] self.cell(x, y)).2 == self.load(x, y)
    }

    /// `after` differs from `self` at most in the cell that `pos` addresses,
    /// which there holds `put`.
    pub open spec fn changed_at(
        &self,
        after: &World,
        pos: [i64; 2],
        put: (Option<ParticleRef>, u64, u128),
    ) -> bool {
        &&& after.wf()
        &&& after.height == self.height
        &&& after.width == self.width
        &&& forall|x: int, y: int|
            self.has_cell(x, y) ==> #[trigger] after.cell(x, y) == if x == cell_index(pos[0]) && y
                == cell_index(pos[1]) {
                put
            } else {
                self.cell(x, y)
            }
    }

    /// Computes [`World::wf`].
    pub fn is_wf(&self) -> (wf: bool)
        ensures
            wf == self.wf(),
    {
        if self.grid.len() != self.height || self.height as u128 > MAX_EXTENT as u128 || self.width as u128
            > MAX_EXTENT as u128 {
            return false;
        }
        let mut y: usize = 0;
        while y < self.height
            invariant
                self.grid.len() == self.height,
                y <= self.height,
                forall|r: int| 0 <= r < y ==> (#[trigger] self.grid[r]).len() == self.width,
            decreases self.height - y,
        {
            if self.grid[y].len() != self.width {
                return false;
            }
            y += 1;
        }
        true
    }

    /// An empty grid of `h` rows and `w` columns.
    pub fn new(h: usize, w: usize) -> (world: World)
        requires
            h <= MAX_EXTENT,
            w <= MAX_EXTENT,
        ensures
            world.wf(),
            world.height == h,
            world.width == w,
            forall|x: int, y: int|
                world.has_cell(x, y) ==> #[trigger] world.cell(x, y) == (None::<ParticleRef>, 0u64, 0u128),
    {
        let mut grid: Vec<Vec<(Option<ParticleRef>, u64, u128)>> = Vec::new();
        let mut y: usize = 0;
        while y < h
            invariant
                y <= h,
                grid.len() == y,
                forall|i: int| 0 <= i < y ==> (#[trigger] grid[i]).len() == w,
                forall|i: int, j: int|
                    0 <= i < y && 0 <= j < w ==> #[trigger] grid[i][j] == (None::<ParticleRef>, 0u64, 0u128),
            decreases h - y,
        {
            let mut row: Vec<(Option<ParticleRef>, u64, u128)> = Vec::new();
            let mut x: usize = 0;
            while x < w
                invariant
                    x <= w,
                    row.len() == x,
                    forall|j: int| 0 <= j < x ==> #[trigger] row[j] == (None::<ParticleRef>, 0u64, 0u128),
                decreases w - x,
            {
                row.push((None, 0, 0));
                x += 1;
            }
            grid.push(row);
            y += 1;
        }
        World { height: h, width: w, grid }
    }

    /// The pressure on the cell in column `x`, row `y`.
    pub fn give_pressure_on_position(&self, x: usize, y: usize) -> (pressure: u128)
        requires
            self.wf(),
            self.has_cell(x as int, y as int),
        ensures
            pressure == self.cell(x as int, y as int).2,
    {
        self.grid[y][x].2
    }

    /// The occupant of the cell in column `x`, row `y`.
    pub fn give_occupation_on_position(&self, x: usize, y: usize) -> (occupant: Option<ParticleRef>)
        requires
            self.wf(),
            self.has_cell(x as int, y as int),
        ensures
            occupant == self.cell(x as int, y as int).0,
    {
        self.grid[y][x].0
    }

    /// The column and row that a position addresses, if it addresses a cell
    /// of the grid.
    pub fn locate(&self, pos: [i64; 2]) -> (at: Option<(usize, usize)>)
        requires
            self.wf(),
        ensures
            at is Some <==> self.holds(pos),
            at matches Some((x, y)) ==> x == cell_index(pos[0]) && y == cell_index(pos[1]),
    {
        let cx = cell_of(pos[0]);
        let cy = cell_of(pos[1]);
        if cx >= 0 && cy >= 0 && (cx as u64) < (self.width as u64) && (cy as u64) < (self.height as u64) {
            Some((cx as usize, cy as usize))
        } else {
            None
        }
    }

    /// Sets the mass of the cell that `partl_koord` addresses; a position off
    /// the grid changes nothing.
    pub fn update_mass_on_position(&mut self, partl_koord: [i64; 2], mass: u64)
        requires
            old(self).wf(),
        ensures
            old(self).holds(partl_koord) ==> old(self).changed_at(
                final(self),
                partl_koord,
                (
                    old(self).cell(cell_index(partl_koord[0]), cell_index(partl_koord[1])).0,
                    mass,
                    old(self).cell(cell_index(partl_koord[0]), cell_index(partl_koord[1])).2,
                ),
            ),
            !old(self).holds(partl_koord) ==> *final(self) == *old(self),
    {
        if let Some((x, y)) = self.locate(partl_koord) {
            self.grid[y][x].1 = mass;
        }
    }

    /// Sets the occupant of the cell that `partl_koord` addresses; a position
    /// off the grid changes nothing.
    pub fn update_occupation_on_position(&mut self, partl_koord: [i64; 2], particle_ref: ParticleRef)
        requires
            old(self).wf(),
        ensures
            old(self).holds(partl_koord) ==> old(self).changed_at(
                final(self),
                partl_koord,
                (
                    Some(particle_ref),
                    old(self).cell(cell_index(partl_koord[0]), cell_index(partl_koord[1])).1,
                    old(self).cell(cell_index(partl_koord[0]), cell_index(partl_koord[1])).2,
                ),
            ),
            !old(self).holds(partl_koord) ==> *final(self) == *old(self),
    {
        if let Some((x, y)) = self.locate(partl_koord) {
            self.grid[y][x].0 = Some(particle_ref);
        }
    }

    /// Empties the cell that `partl_koord` addresses of its occupant; a
    /// position off the grid changes nothing.
    pub fn clear_occupation_on_position(&mut self, partl_koord: [i64; 2])
        requires
            old(self).wf(),
        ensures
            old(self).holds(partl_koord) ==> old(self).changed_at(
                final(self),
                partl_koord,
                (
                    None,
                    old(self).cell(cell_index(partl_koord[0]), cell_index(partl_koord[1])).1,
                    old(self).cell(cell_index(partl_koord[0]), cell_index(partl_koord[1])).2,
                ),
            ),
            !old(self).holds(partl_koord) ==> *final(self) == *old(self),
    {
        if let Some((x, y)) = self.locate(partl_koord) {
            self.grid[y][x].0 = None;
        }
    }

    /// Sets the mass of the cell that `partl_koord` addresses to zero; a
    /// position off the grid changes nothing.
    pub fn clear_mass_on_position(&mut self, partl_koord: [i64; 2])
        requires
            old(self).wf(),
        ensures
            old(self).holds(partl_koord) ==> old(self).changed_at(
                final(self),
                partl_koord,
                (
                    old(self).cell(cell_index(partl_koord[0]), cell_index(partl_koord[1])).0,
                    0,
                    old(self).cell(cell_index(partl_koord[0]), cell_index(partl_koord[1])).2,
                ),
            ),
            !old(self).holds(partl_koord) ==> *final(self) == *old(self),
    {
        if let Some((x, y)) = self.locate(partl_koord) {
            self.grid[y][x].1 = 0;
        }
    }

    /// What the cell in column `x`, row `y` holds after an occupant has left
    /// the cell that `from` addresses and `who`, with `mass`, has arrived at
    /// the cell that `to` addresses. Pressure is left as it was.
    pub open spec fn cell_after_move(
        &self,
        x: int,
        y: int,
        from: [i64; 2],
        to: [i64; 2],
        who: ParticleRef,
        mass: u64,
    ) -> (Option<ParticleRef>, u64, u128) {
        if x == cell_index(to[0]) && y == cell_index(to[1]) {
            (Some(who), mass, self.cell(x, y).2)
        } else if x == cell_index(from[0]) && y == cell_index(from[1]) {
            (None, 0, self.cell(x, y).2)
        } else {
            self.cell(x, y)
        }
    }

    /// `after` is this grid once `who`, with `mass`, has moved from `from` to
    /// `to`: the cell left is cleared first, the cell entered is written
    /// next, and a position off the grid is passed over.
    pub open spec fn moved(
        &self,
        after: &World,
        from: [i64; 2],
        to: [i64; 2],
        who: ParticleRef,
        mass: u64,
    ) -> bool {
        &&& after.wf()
        &&& after.height == self.height
        &&& after.width == self.width
        &&& forall|x: int, y: int|
            self.has_cell(x, y) ==> #[trigger] after.cell(x, y) == self.cell_after_move(
                x,
                y,
                from,
                to,
                who,
                mass,
            )
    }

    /// Clears occupant and mass of the cell that `pos` addresses; a position
    /// off the grid changes nothing.
    pub fn vacate(&mut self, pos: [i64; 2])
        requires
            old(self).wf(),
        ensures
            old(self).holds(pos) ==> old(self).changed_at(
                final(self),
                pos,
                (None, 0, old(self).cell(cell_index(pos[0]), cell_index(pos[1])).2),
            ),
            !old(self).holds(pos) ==> *final(self) == *old(self),
    {
        self.clear_occupation_on_position(pos);
        self.clear_mass_on_position(pos);
    }

    /// Writes occupant and mass of the cell that `pos` addresses; a position
    /// off the grid changes nothing.
    pub fn occupy(&mut self, pos: [i64; 2], who: ParticleRef, mass: u64)
        requires
            old(self).wf(),
        ensures
            old(self).holds(pos) ==> old(self).changed_at(
                final(self),
                pos,
                (Some(who), mass, old(self).cell(cell_index(pos[0]), cell_index(pos[1])).2),
            ),
            !old(self).holds(pos) ==> *final(self) == *old(self),
    {
        self.update_occupation_on_position(pos, who);
        self.update_mass_on_position(pos, mass);
    }

    /// Moves an occupant: clears occupant and mass at `from`, then writes
    /// `who` and `mass` at `to`.
    pub fn relocate(&mut self, from: [i64; 2], to: [i64; 2], who: ParticleRef, mass: u64)
        requires
            old(self).wf(),
        ensures
            old(self).moved(final(self), from, to, who, mass),
    {
        self.vacate(from);
        self.occupy(to, who, mass);
    }

    /// After a move, the cell left reads unoccupied with mass zero, unless it
    /// is the cell entered, and the cell entered reads occupied by the mover
    /// with the mover's mass. No other cell has changed.
    pub proof fn lemma_move_exclusive(
        &self,
        after: &World,
        from: [i64; 2],
        to: [i64; 2],
        who: ParticleRef,
        mass: u64,
    )
        requires
            self.moved(after, from, to, who, mass),
        ensures
            self.holds(to) ==> after.cell(cell_index(to[0]), cell_index(to[1])).0 == Some(who)
                && after.cell(cell_index(to[0]), cell_index(to[1])).1 == mass,
            self.holds(from) && (cell_index(from[0]) != cell_index(to[0]) || cell_index(from[1])
                != cell_index(to[1])) ==> after.cell(cell_index(from[0]), cell_index(from[1])).0
                is None && after.cell(cell_index(from[0]), cell_index(from[1])).1 == 0,
            forall|x: int, y: int|
                self.has_cell(x, y) && !(x == cell_index(to[0]) && y == cell_index(to[1])) && !(x
                    == cell_index(from[0]) && y == cell_index(from[1])) ==> #[trigger] after.cell(x, y)
                    == self.cell(x, y),
    {
        if self.holds(to) {
            assert(self.has_cell(cell_index(to[0]), cell_index(to[1])));
        }
        if self.holds(from) {
            assert(self.has_cell(cell_index(from[0]), cell_index(from[1])));
        }
    }

    /// Whether the rectangle of `h` rows and `w` columns whose lower left
    /// cell is in column `x`, row `y` lies on the grid and is unoccupied.
    pub open spec fn rect_free(&self, x: int, y: int, h: int, w: int) -> bool {
        forall|cx: int, cy: int|
            x <= cx < x + w && y <= cy < y + h ==> self.has_cell(cx, cy) && (#[trigger] self.cell(cx, cy)).0
                is None
    }

    /// Computes [`World::rect_free`].
    pub fn is_rect_free(&self, x: usize, y: usize, h: usize, w: usize) -> (free: bool)
        requires
            self.wf(),
        ensures
            free == self.rect_free(x as int, y as int, h as int, w as int),
    {
        if h == 0 || w == 0 {
            return true;
        }
        if x as u128 + w as u128 > self.width as u128 || y as u128 + h as u128 > self.height as u128 {
            proof {
                if x + w > self.width {
                    assert(!self.has_cell(x + w - 1, y as int));
                    let _ = self.cell(x + w - 1, y as int);
                } else {
                    assert(!self.has_cell(x as int, y + h - 1));
                    let _ = self.cell(x as int, y + h - 1);
                }
            }
            return false;
        }
        let mut i: usize = 0;
        while i < h
            invariant
                self.wf(),
                x + w <= self.width,
                y + h <= self.height,
                i <= h,
                forall|cx: int, cy: int|
                    x <= cx < x + w && y <= cy < y + i ==> (#[trigger] self.cell(cx, cy)).0 is None,
            decreases h - i,
        {
            let mut j: usize = 0;
            while j < w
                invariant
                    self.wf(),
                    x + w <= self.width,
                    y + h <= self.height,
                    i < h,
                    j <= w,
                    forall|cx: int, cy: int|
                        x <= cx < x + w && y <= cy < y + i ==> (#[trigger] self.cell(cx, cy)).0 is None,
                    forall|cx: int| x <= cx < x + j ==> (#[trigger] self.cell(cx, y + i)).0 is None,
                decreases w - j,
            {
                if self.give_occupation_on_position(x + j, y + i).is_some() {
                    proof {
                        let _ = self.cell(x + j, y + i);
                    }
                    return false;
                }
                j += 1;
            }
            i += 1;
        }
        true
    }

    /// Recomputes the pressure of every cell: column by column, from the top
    /// row down, the running sum of the masses passed so far.
    pub fn calc_pressure_on_all_position(&mut self)
        requires
            old(self).wf(),
        ensures
            final(self).wf(),
            final(self).height == old(self).height,
            final(self).width == old(self).width,
            forall|x: int, y: int|
                old(self).has_cell(x, y) ==> {
                    &&& (#[trigger] final(self).cell(x, y)).0 == old(self).cell(x, y).0
                    &&& final(self).cell(x, y).1 == old(self).cell(x, y).1
                    &&& final(self).cell(x, y).2 == old(self).load(x, y)
                },
            final(self).pressure_settled(),
    {
        let ghost start = *self;
        let mut j: usize = 0;
        while j < self.width
            invariant
                start.wf(),
                self.wf(),
                self.height == start.height,
                self.width == start.width,
                j <= self.width,
                forall|x: int, y: int|
                    start.has_cell(x, y) ==> {
                        &&& (#[trigger] self.cell(x, y)).0 == start.cell(x, y).0
                        &&& self.cell(x, y).1 == start.cell(x, y).1
                        &&& x < j ==> self.cell(x, y).2 == start.load(x, y)
                    },
            decreases self.width - j,
        {
            let mut sum_pressure: u128 = 0;
            let mut i: usize = self.height;
            while i > 0
                invariant
                    start.wf(),
                    self.wf(),
                    self.height == start.height,
                    self.width == start.width,
                    j < self.width,
                    i <= self.height,
                    sum_pressure == start.load(j as int, i as int),
                    forall|x: int, y: int|
                        start.has_cell(x, y) ==> {
                            &&& (#[trigger] self.cell(x, y)).0 == start.cell(x, y).0
                            &&& self.cell(x, y).1 == start.cell(x, y).1
                            &&& (x < j || (x == j && y >= i)) ==> self.cell(x, y).2 == start.load(
                                x,
                                y,
                            )
                        },
                decreases i,
            {
                i -= 1;
                proof {
                    start.lemma_load_bounded(j as int, i as int);
                    assert(start.has_cell(j as int, i as int));
                    assert(self.cell(j as int, i as int).1 == start.cell(j as int, i as int).1);
                }
                let ghost before = *self;
                sum_pressure += self.grid[i][j].1 as u128;
                self.grid[i][j].2 = sum_pressure;
                proof {
                    assert forall|x: int, y: int| start.has_cell(x, y) implies {
                        &&& (#[trigger] self.cell(x, y)).0 == start.cell(x, y).0
                        &&& self.cell(x, y).1 == start.cell(x, y).1
                        &&& (x < j || (x == j && y >= i)) ==> self.cell(x, y).2 == start.load(x, y)
                    } by {
                        assert(before.cell(x, y).0 == start.cell(x, y).0);
                        if x == j && y == i {
                        } else {
                            assert(self.cell(x, y) == before.cell(x, y));
                        }
                    }
                }
            }
            j += 1;
        }
        proof {
            assert forall|x: int, y: int| self.has_cell(x, y) implies (#[trigger] self.cell(
                x,
                y,
            )).2 == self.load(x, y) by {
                assert(start.has_cell(x, y));
                start.lemma_load_bounded(x, y);
                start.lemma_load_by_masses(self, x, y);
            }
        }
    }

    /// A column's load from any row up is at most the largest mass that its
    /// remaining cells can hold, which fits the pressure's type.
    pub proof fn lemma_load_bounded(&self, x: int, y: int)
        requires
            self.wf(),
        ensures
            0 <= self.load(x, y),
            0 <= y <= self.height ==> self.load(x, y) <= (self.height - y) * u64::MAX,
            self.load(x, y) <= u128::MAX,
        decreases self.height - y,
    {
        if 0 <= y < self.height {
            self.lemma_load_bounded(x, y + 1);
            assert((self.height - y) * u64::MAX == (self.height - (y + 1)) * u64::MAX + u64::MAX)
                by (nonlinear_arith);
        }
        if 0 <= y <= self.height {
            assert((self.height - y) * u64::MAX <= MAX_EXTENT * u64::MAX) by (nonlinear_arith)
                requires
                    0 <= self.height - y <= MAX_EXTENT,
            ;
        }
    }

    /// The load depends on the masses alone: two grids of one shape whose
    /// cells hold the same masses bear the same loads.
    pub proof fn lemma_load_by_masses(&self, other: &World, x: int, y: int)
        requires
            self.height == other.height,
            self.width == other.width,
            0 <= x < self.width,
            forall|c: int, r: int| self.has_cell(c, r) ==> (#[trigger] self.cell(c, r)).1 == other.cell(c, r).1,
        ensures
            self.load(x, y) == other.load(x, y),
        decreases self.height - y,
    {
        if 0 <= y < self.height {
            self.lemma_load_by_masses(other, x, y + 1);
            assert(self.has_cell(x, y));
        }
    }

    /// Within a column, the load on a cell is at least the load on any cell
    /// above it.
    pub proof fn lemma_load_monotone(&self, x: int, below: int, above: int)
        requires
            0 <= below <= above,
        ensures
            self.load(x, above) <= self.load(x, below),
        decreases above - below,
    {
        if above >= self.height {
            assert(self.load(x, above) == 0);
            self.lemma_load_nonnegative(x, below);
        } else if below < above {
            self.lemma_load_monotone(x, below + 1, above);
        }
    }

    /// A load is never negative.
    pub proof fn lemma_load_nonnegative(&self, x: int, y: int)
        ensures
            0 <= self.load(x, y),
        decreases self.height - y,
    {
        if 0 <= y < self.height {
            self.lemma_load_nonnegative(x, y + 1);
        }
    }

    /// Once the pressure has been recomputed, it never decreases from the top
    /// of a column to its bottom: a cell bears at least the pressure of any
    /// cell above it in the same column.
    pub proof fn lemma_pressure_monotone(&self, x: int, below: int, above: int)
        requires
            self.pressure_settled(),
            self.has_cell(x, below),
            self.has_cell(x, above),
            below <= above,
        ensures
            self.cell(x, above).2 <= self.cell(x, below).2,
    {
        self.lemma_load_monotone(x, below, above);
    }
}

} // verus!
