//! Which entry of a sine table stands for a phase.
//!
//! The tables hold floats and live with the caller; the positions in them are
//! plain numbers.
use vstd::prelude::*;

verus! {

/// A full-cycle table has a step for each of its 2^12 phases.
pub const TABLE_BITS: u32 = 12;

/// Steps of a full-cycle table.
pub const TABLE_SIZE: usize = 4096;

/// A quarter-wave table has 2^10 steps from 0 to π/2.
pub const QUARTER_BITS: u32 = 10;

/// Steps of a quarter-wave table.
pub const QUARTER_SIZE: usize = 1024;

/// The entry of a full-cycle table for a phase of `steps` table steps.
pub fn table_index(steps: usize) -> (idx: usize)
    ensures
        idx == steps % TABLE_SIZE,
        idx < TABLE_SIZE,
        idx == steps % 4096,
{
    assert(steps & 4095 == steps % 4096) by (bit_vector);
    steps & 4095
}

/// An entry of a quarter-wave table, and whether its sign is turned.
#[derive(Clone, Copy, Debug, PartialEq, Eq, Structural)]
pub struct QuarterEntry {
    pub idx: usize,
    pub negate: bool,
}

/// The entry for the point `fwd` steps into a quadrant: odd quadrants run
/// through the table backwards, and the second half of the cycle is negative.
pub open spec fn quarter_entry(quadrant: int, fwd: int) -> QuarterEntry {
    let into = if fwd < QUARTER_SIZE {
        fwd
    } else {
        QUARTER_SIZE as int
    };
    QuarterEntry {
        idx: (if quadrant % 2 == 0 {
            into
        } else {
            QUARTER_SIZE - into
        }) as usize,
        negate: quadrant % 4 >= 2,
    }
}

/// The entry of a quarter-wave table for the point `fwd` steps into a
/// quadrant. Quadrants repeat after four; a point past the end of its quadrant
/// is taken for its end.
pub fn quarter_lookup(quadrant: u32, fwd: usize) -> (entry: QuarterEntry)
    ensures
        entry == quarter_entry(quadrant as int, fwd as int),
        entry.idx <= QUARTER_SIZE,
{
    let q: u32 = quadrant & 3;
    let into: usize = if fwd < QUARTER_SIZE {
        fwd
    } else {
        QUARTER_SIZE
    };
    assert(q & 1 == quadrant % 2 && (q & 2 == 0) == (quadrant % 4 < 2)) by (bit_vector)
        requires
            q == quadrant & 3,
    ;
    let idx: usize = if q & 1 == 0 {
        into
    } else {
        QUARTER_SIZE - into
    };
    QuarterEntry { idx, negate: q & 2 != 0 }
}

/// Half a cycle on, the value is the same with its sign turned; a full cycle
/// on it is the same.
pub proof fn law_half_cycle_turns_the_sign(quadrant: int, fwd: int)
    requires
        quadrant >= 0,
        fwd >= 0,
    ensures
        quarter_entry(quadrant + 2, fwd).idx == quarter_entry(quadrant, fwd).idx,
        quarter_entry(quadrant + 2, fwd).negate == !quarter_entry(quadrant, fwd).negate,
        quarter_entry(quadrant + 4, fwd) == quarter_entry(quadrant, fwd),
{
}

/// The wave goes on across the border of two quadrants: the end of one has the
/// entry of the start of the next.
pub proof fn law_quadrants_join(quadrant: int)
    requires
        quadrant >= 0,
    ensures
        quarter_entry(quadrant, QUARTER_SIZE as int).idx == quarter_entry(quadrant + 1, 0).idx,
{
}

/// Within a half cycle the wave is symmetric about its middle.
pub proof fn law_half_cycle_is_symmetric(quadrant: int, fwd: int)
    requires
        quadrant >= 0,
        quadrant % 2 == 0,
        0 <= fwd <= QUARTER_SIZE,
    ensures
        quarter_entry(quadrant, fwd) == quarter_entry(quadrant + 1, QUARTER_SIZE - fwd),
{
}

/// The table is run through once from quadrant to quadrant: forwards in the first
/// and the third, backwards in the second and the fourth, and the sign is turned
/// in the last two. A point past the end of its quadrant is taken for the end.
pub proof fn law_quarters_run_through_the_table(cycles: nat, fwd: int)
    requires
        fwd >= 0,
    ensures
        ({
            let into: int = if fwd < 1024 {
                fwd
            } else {
                1024
            };
            let first = quarter_entry(4 * cycles as int, fwd);
            let second = quarter_entry(4 * cycles as int + 1, fwd);
            let third = quarter_entry(4 * cycles as int + 2, fwd);
            let fourth = quarter_entry(4 * cycles as int + 3, fwd);
            &&& first.idx == into && !first.negate
            &&& second.idx + into == 1024 && !second.negate
            &&& third.idx == into && third.negate
            &&& fourth.idx + into == 1024 && fourth.negate
        }),
{
}

} // verus!
