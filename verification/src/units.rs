//! Fixed-point units: every quantity counts thousandths of its unit.

use vstd::prelude::*;

verus! {

/// How many counts make one whole unit, and one whole cell.
pub const SCALE: i64 = 1000;

/// The largest height or width a grid may have, so that the position of
/// every cell, and of the cell beyond the last, is representable.
pub const MAX_EXTENT: u64 = 9_000_000_000_000_000;

/// A count of thousandths in whole units, with the fractional part cut off
/// (rounding toward zero).
pub open spec fn whole_part(p: int) -> int {
    if p >= 0 {
        p / 1000
    } else {
        -((-p) / 1000)
    }
}

/// The cell coordinate that a position coordinate addresses: the position in
/// whole cells, with the fractional part cut off.
pub open spec fn cell_index(p: i64) -> int {
    whole_part(p as int)
}

/// Computes [`cell_index`].
pub fn cell_of(p: i64) -> (c: i64)
    ensures
        c == cell_index(p),
{
    p / SCALE
}

/// The position coordinate of the lower or left edge of a cell.
pub open spec fn edge_of(c: int) -> int {
    c * 1000
}

/// From zero up, a position that lies whole cells further addresses the
/// cell that lies as many cells further.
pub proof fn lemma_cell_index_shift(p: i64, cells: int)
    requires
        p >= 0,
        cells >= 0,
        p + cells * 1000 <= i64::MAX,
    ensures
        cell_index((p + cells * 1000) as i64) == cell_index(p) + cells,
{
    let q = p as int / 1000;
    let r = p as int % 1000;
    vstd::arithmetic::div_mod::lemma_fundamental_div_mod(p as int, 1000);
    vstd::arithmetic::div_mod::lemma_fundamental_div_mod_converse(p + cells * 1000, 1000, q + cells, r);
}

} // verus!
