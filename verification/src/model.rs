//! The model of one component: where the centres of the data term's intervals lie,
//! and the levels and steps that a component's problem is made of.
use vstd::prelude::*;

use crate::error::{add_number, add_text, decimal, text, Error};
use crate::planar::BLOCK_SIZE;

verus! {

/// The centres of the data term.
#[derive(Debug, Clone, Copy, PartialEq, Eq, Structural, Hash)]
pub enum Centres {
    /// The MMSE centres of the Laplace model.
    Mmse,
    /// The middles of the intervals, `q Q`, which are exact.
    Midpoint,
}

impl Default for Centres {
    /// The MMSE centres.
    fn default() -> (centres: Centres)
        ensures
            centres == Centres::Mmse,
    {
        Centres::Mmse
    }
}

/// Why levels are not `rows x columns` blocks of 64.
pub open spec fn levels_refusal(rows: usize, columns: usize, count: nat) -> Seq<char> {
    "levels of "@ + decimal(rows as nat) + " x "@ + decimal(columns as nat) + " blocks of 64, not "@
        + decimal(count) + " levels"@
}

/// Whether a quantization table has a step of 0.
pub open spec fn has_zero_step(table: Seq<u16>) -> bool {
    exists|i: int| 0 <= i < table.len() && table[i] == 0
}

/// Whether the levels of a component are `rows x columns` blocks of 64 and each step
/// of its quantization table is at least 1, as its problem asks.
///
/// # Errors
///
/// [`Error::Options`] for levels that are not `rows x columns` blocks, or a step
/// below 1: the first of them.
pub fn check_levels(levels: &[i16], rows: usize, columns: usize, table: &[u16; 64]) -> (result: Result<(), Error>)
    ensures
        match result {
            Ok(()) => levels@.len() == rows * columns * BLOCK_SIZE && !has_zero_step(table@),
            Err(error) => error matches Error::Options(message) && if levels@.len() != rows * columns
                * BLOCK_SIZE {
                message@ == levels_refusal(rows, columns, levels@.len())
            } else {
                &&& has_zero_step(table@)
                &&& message@ == "a quantization step is at least 1"@
            },
        },
{
    let length = levels.len();
    let fits = match rows.checked_mul(columns) {
        Some(blocks) => match blocks.checked_mul(BLOCK_SIZE) {
            Some(count) => count == length,
            None => false,
        },
        None => false,
    };
    if !fits {
        proof {
            if levels@.len() == rows * columns * BLOCK_SIZE {
                assert(rows * columns <= usize::MAX) by (nonlinear_arith)
                    requires
                        length == rows * columns * 64,
                        length <= usize::MAX,
                        0 <= rows,
                        0 <= columns,
                        BLOCK_SIZE == 64,
                ;
            }
        }
        let mut message = text("levels of ");
        add_number(&mut message, rows as u64);
        add_text(&mut message, " x ");
        add_number(&mut message, columns as u64);
        add_text(&mut message, " blocks of 64, not ");
        add_number(&mut message, length as u64);
        add_text(&mut message, " levels");
        return Err(Error::Options(message));
    }
    let mut i: usize = 0;
    while i < 64
        invariant
            i <= 64,
            table@.len() == 64,
            levels@.len() == rows * columns * BLOCK_SIZE,
            forall|k: int| 0 <= k < i ==> table@[k] != 0,
        decreases 64 - i,
    {
        if table[i] == 0 {
            proof {
                assert(table@[i as int] == 0);
            }
            return Err(Error::Options(text("a quantization step is at least 1")));
        }
        i += 1;
    }
    Ok(())
}

} // verus!
