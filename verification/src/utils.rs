//! Per-level cell sizes of the GeoSOT grid.
//!
//! Levels 0..=9 are whole-degree grids, 10..=15 arc-minute grids and
//! 16..=32 arc-second grids; each level halves the cell edge of the
//! previous one within its regime.

use vstd::prelude::*;

verus! {

/// Why a grid operation was refused.
#[derive(Debug, Clone, Copy, PartialEq, Eq, Structural)]
pub enum GridError {
    /// A level outside the range the grid defines.
    LevelOutOfRange,
    /// A binary region operation over two different levels.
    LevelMismatch,
}

/// Cell edge length at a level, as an exact fraction of a degree
/// (numerator, denominator): 2^(9-i) degrees for levels 0..=9,
/// 2^(15-i)/60 for 10..=15 and 2^(21-i)/3600 for 16..=32.
pub open spec fn spec_cell_size_fraction(i: int) -> (u64, u64) {
    if 0 <= i <= 9 {
        (512u64 >> (i as u64), 1u64)
    } else if 10 <= i <= 15 {
        (32u64 >> ((i - 10) as u64), 60u64)
    } else if 16 <= i <= 21 {
        (32u64 >> ((i - 16) as u64), 3600u64)
    } else {
        (1u64, 3600u64 << ((i - 21) as u64))
    }
}

/// Cell edge length at a level, in scaled coordinate units of
/// 1/7372800 degree; always a positive integer.
pub open spec fn spec_cell_size_units(i: int) -> u64 {
    if 0 <= i <= 9 {
        7372800u64 << ((9 - i) as u64)
    } else if 10 <= i <= 15 {
        122880u64 << ((15 - i) as u64)
    } else {
        1u64 << ((32 - i) as u64)
    }
}

/// Cell edge length of level `i` as an exact fraction of a degree.
///
/// Returns the (numerator, denominator) pair of `spec_cell_size_fraction`;
/// levels outside 0..=32 are a domain error.
pub fn get_cell_size_in_degree(i: i32) -> (r: Result<(u64, u64), GridError>)
    ensures
        0 <= i <= 32 ==> r == Ok::<(u64, u64), GridError>(spec_cell_size_fraction(i as int)),
        !(0 <= i <= 32) ==> r == Err::<(u64, u64), GridError>(GridError::LevelOutOfRange),
{
    if 0 <= i && i <= 9 {
        Ok((512u64 >> (i as u64), 1))
    } else if 10 <= i && i <= 15 {
        Ok((32u64 >> ((i - 10) as u64), 60))
    } else if 16 <= i && i <= 21 {
        Ok((32u64 >> ((i - 16) as u64), 3600))
    } else if 22 <= i && i <= 32 {
        Ok((1, 3600u64 << ((i - 21) as u64)))
    } else {
        Err(GridError::LevelOutOfRange)
    }
}

/// Cell edge length of level `i` in scaled coordinate units.
pub fn cell_size_units(i: usize) -> (r: u64)
    requires
        i <= 32,
    ensures
        r == spec_cell_size_units(i as int),
{
    if i <= 9 {
        7372800u64 << ((9 - i) as u64)
    } else if i <= 15 {
        122880u64 << ((15 - i) as u64)
    } else {
        1u64 << ((32 - i) as u64)
    }
}

/// The two cell-size views agree: at every level the size in scaled units
/// times the fraction's denominator equals the numerator times the number
/// of scaled units in a degree.
pub proof fn lemma_cell_size_consistent(i: int)
    requires
        0 <= i <= 32,
    ensures
        ({
            let (num, den) = spec_cell_size_fraction(i);
            spec_cell_size_units(i) * den == num * 7372800
        }),
{
    let iu = i as u64;
    if i <= 9 {
        assert((7372800u64 << ((9 - iu) as u64)) * 1 == (512u64 >> iu) * 7372800) by (bit_vector)
            requires
                iu <= 9,
        ;
    } else if i <= 15 {
        assert((122880u64 << ((15 - iu) as u64)) * 60 == (32u64 >> ((iu - 10) as u64)) * 7372800)
            by (bit_vector)
            requires
                10 <= iu <= 15,
        ;
    } else if i <= 21 {
        assert((1u64 << ((32 - iu) as u64)) * 3600 == (32u64 >> ((iu - 16) as u64)) * 7372800)
            by (bit_vector)
            requires
                16 <= iu <= 21,
        ;
    } else {
        assert((1u64 << ((32 - iu) as u64)) * (3600u64 << ((iu - 21) as u64)) == 1 * 7372800)
            by (bit_vector)
            requires
                22 <= iu <= 32,
        ;
    }
}

/// Every level's cell size is at least one scaled unit.
pub proof fn lemma_cell_size_units_positive(i: int)
    requires
        0 <= i <= 32,
    ensures
        1 <= spec_cell_size_units(i) <= 3774873600u64,
{
    let iu = i as u64;
    assert(1 <= spec_cell_size_units(iu as int) <= 3774873600u64) by (bit_vector)
        requires
            iu <= 32,
    ;
}

} // verus!
