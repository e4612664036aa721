//! The Laplace model of a component's AC coefficients: for each frequency, the counts
//! of its levels over every block, from which its scale is estimated by maximum
//! likelihood. The counts are integers and are computed exactly; the estimate itself
//! is floating point, which the program around this library computes from them.
use vstd::prelude::*;

use crate::planar::BLOCK_SIZE;

verus! {

/// The counts of one frequency's levels that its scale is estimated from.
#[derive(Debug, Clone, Copy, PartialEq, Eq, Structural)]
pub struct Counts {
    /// The blocks whose level is 0.
    pub zeros: u64,
    /// The blocks whose level is not 0.
    pub nonzeros: u64,
    /// The sum of `2|q| - 1` over the levels `q` that are not 0.
    pub odd_sum: u64,
}

/// `|q|`.
pub open spec fn magnitude(level: i16) -> int {
    if level < 0 {
        -level
    } else {
        level as int
    }
}

/// The level of `frequency` in block `block`.
pub open spec fn level_at(levels: Seq<i16>, frequency: int, block: int) -> i16 {
    levels[block * BLOCK_SIZE + frequency]
}

/// The blocks among the first `blocks` whose level of `frequency` is 0.
pub open spec fn zeros_in(levels: Seq<i16>, frequency: int, blocks: nat) -> int
    decreases blocks,
{
    if blocks == 0 {
        0
    } else {
        zeros_in(levels, frequency, (blocks - 1) as nat) + if level_at(levels, frequency, blocks - 1) == 0 {
            1int
        } else {
            0
        }
    }
}

/// `2|q| - 1` summed over the levels `q` of `frequency` in the first `blocks` blocks
/// that are not 0.
pub open spec fn odd_sum_in(levels: Seq<i16>, frequency: int, blocks: nat) -> int
    decreases blocks,
{
    if blocks == 0 {
        0
    } else {
        let level = level_at(levels, frequency, blocks - 1);
        odd_sum_in(levels, frequency, (blocks - 1) as nat) + if level == 0 {
            0
        } else {
            2 * magnitude(level) - 1
        }
    }
}

/// `|q|` summed over the levels of `frequency` in the first `blocks` blocks.
pub open spec fn magnitudes_in(levels: Seq<i16>, frequency: int, blocks: nat) -> int
    decreases blocks,
{
    if blocks == 0 {
        0
    } else {
        magnitudes_in(levels, frequency, (blocks - 1) as nat) + magnitude(level_at(levels, frequency, blocks - 1))
    }
}

/// The whole blocks of 64 levels.
pub open spec fn blocks_of(levels: Seq<i16>) -> nat {
    levels.len() / BLOCK_SIZE as nat
}

/// The counts of `frequency` over the whole blocks.
pub open spec fn counts_of(levels: Seq<i16>, frequency: int) -> Counts {
    let blocks = blocks_of(levels);
    Counts {
        zeros: zeros_in(levels, frequency, blocks) as u64,
        nonzeros: (blocks - zeros_in(levels, frequency, blocks)) as u64,
        odd_sum: odd_sum_in(levels, frequency, blocks) as u64,
    }
}

/// What the counts of the first blocks are bounded by; and the sum of `2|q| - 1` is
/// twice the sum of `|q|` less the levels that are not 0.
pub proof fn lemma_counts(levels: Seq<i16>, frequency: int, blocks: nat)
    requires
        0 <= frequency < BLOCK_SIZE,
        blocks <= blocks_of(levels),
    ensures
        0 <= zeros_in(levels, frequency, blocks) <= blocks,
        0 <= magnitudes_in(levels, frequency, blocks) <= 32768 * blocks,
        odd_sum_in(levels, frequency, blocks) == 2 * magnitudes_in(levels, frequency, blocks) - (blocks
            - zeros_in(levels, frequency, blocks)),
        0 <= odd_sum_in(levels, frequency, blocks),
    decreases blocks,
{
    if blocks > 0 {
        lemma_counts(levels, frequency, (blocks - 1) as nat);
        let b = blocks - 1;
        assert(b * BLOCK_SIZE + frequency < levels.len()) by (nonlinear_arith)
            requires
                b < blocks,
                blocks <= levels.len() / 64,
                0 <= frequency < 64,
                BLOCK_SIZE == 64,
        ;
    }
}

/// The magnitude of a level, as a count.
fn magnitude_of(level: i16) -> (value: u64)
    ensures
        value == magnitude(level),
        value <= 32768,
{
    if level < 0 {
        (0 - (level as i32)) as u64
    } else {
        level as u64
    }
}

/// The counts of each frequency's levels over the component's whole blocks: the
/// levels that are 0, those that are not, and the sum of `2|q| - 1` over the latter,
/// for `levels` of 64 to a block in natural order.
pub fn level_counts(levels: &[i16]) -> (counts: Vec<Counts>)
    requires
        blocks_of(levels@) < 0x1_0000_0000_0000,
    ensures
        counts@.len() == BLOCK_SIZE,
        forall|frequency: int| 0 <= frequency < BLOCK_SIZE ==> #[trigger] counts@[frequency] == counts_of(levels@, frequency),
        forall|frequency: int|
            0 <= frequency < BLOCK_SIZE ==> #[trigger] counts@[frequency].zeros + counts@[frequency].nonzeros
                == blocks_of(levels@),
{
    let ghost total = blocks_of(levels@);
    let length = levels.len();
    let blocks = length / BLOCK_SIZE;
    let mut zeros: Vec<u64> = Vec::new();
    let mut sums: Vec<u64> = Vec::new();
    let mut f: usize = 0;
    while f < BLOCK_SIZE
        invariant
            f <= BLOCK_SIZE,
            zeros@.len() == f,
            sums@.len() == f,
            forall|i: int| 0 <= i < f ==> zeros@[i] == 0 && sums@[i] == 0,
        decreases BLOCK_SIZE - f,
    {
        zeros.push(0);
        sums.push(0);
        f += 1;
    }
    let mut b: usize = 0;
    while b < blocks
        invariant
            blocks == total,
            total == blocks_of(levels@),
            total < 0x1_0000_0000_0000,
            length == levels@.len(),
            b <= blocks,
            zeros@.len() == BLOCK_SIZE,
            sums@.len() == BLOCK_SIZE,
            forall|i: int| 0 <= i < BLOCK_SIZE ==> #[trigger] zeros@[i] == zeros_in(levels@, i, b as nat),
            forall|i: int| 0 <= i < BLOCK_SIZE ==> #[trigger] sums@[i] == magnitudes_in(levels@, i, b as nat),
        decreases blocks - b,
    {
        let mut f: usize = 0;
        while f < BLOCK_SIZE
            invariant
                total == blocks_of(levels@),
                total < 0x1_0000_0000_0000,
                length == levels@.len(),
                b < total,
                f <= BLOCK_SIZE,
                zeros@.len() == BLOCK_SIZE,
                sums@.len() == BLOCK_SIZE,
                forall|i: int| 0 <= i < f ==> #[trigger] zeros@[i] == zeros_in(levels@, i, (b + 1) as nat),
                forall|i: int| 0 <= i < f ==> #[trigger] sums@[i] == magnitudes_in(levels@, i, (b + 1) as nat),
                forall|i: int| f <= i < BLOCK_SIZE ==> #[trigger] zeros@[i] == zeros_in(levels@, i, b as nat),
                forall|i: int| f <= i < BLOCK_SIZE ==> #[trigger] sums@[i] == magnitudes_in(levels@, i, b as nat),
            decreases BLOCK_SIZE - f,
        {
            proof {
                lemma_counts(levels@, f as int, (b + 1) as nat);
                lemma_counts(levels@, f as int, b as nat);
                assert(b * BLOCK_SIZE + f < levels@.len()) by (nonlinear_arith)
                    requires
                        b < total,
                        total == levels@.len() / 64,
                        f < 64,
                        BLOCK_SIZE == 64,
                ;
                assert(b * BLOCK_SIZE + f <= usize::MAX);
                assert(32768 * (b + 1) <= u64::MAX);
            }
            let level = levels[b * BLOCK_SIZE + f];
            let value = magnitude_of(level);
            let zero = zeros[f];
            let sum = sums[f];
            let ghost (before_zeros, before_sums) = (zeros@, sums@);
            zeros.set(f, if value == 0 { zero + 1 } else { zero });
            sums.set(f, sum + value);
            proof {
                assert forall|i: int| 0 <= i < BLOCK_SIZE && i != f implies #[trigger] zeros@[i]
                    == before_zeros[i] by {}
                assert forall|i: int| 0 <= i < BLOCK_SIZE && i != f implies #[trigger] sums@[i]
                    == before_sums[i] by {}
                assert(level_at(levels@, f as int, b as int) == level);
                assert(zeros_in(levels@, f as int, (b + 1) as nat) == zeros_in(levels@, f as int, b as nat) + if level
                    == 0 {
                    1int
                } else {
                    0
                });
                assert(magnitudes_in(levels@, f as int, (b + 1) as nat) == magnitudes_in(levels@, f as int, b as nat)
                    + magnitude(level));
            }
            f += 1;
        }
        b += 1;
    }
    let mut counts: Vec<Counts> = Vec::new();
    let mut f: usize = 0;
    while f < BLOCK_SIZE
        invariant
            blocks == total,
            total == blocks_of(levels@),
            total < 0x1_0000_0000_0000,
            f <= BLOCK_SIZE,
            zeros@.len() == BLOCK_SIZE,
            sums@.len() == BLOCK_SIZE,
            counts@.len() == f,
            forall|i: int| 0 <= i < BLOCK_SIZE ==> #[trigger] zeros@[i] == zeros_in(levels@, i, total),
            forall|i: int| 0 <= i < BLOCK_SIZE ==> #[trigger] sums@[i] == magnitudes_in(levels@, i, total),
            forall|i: int| 0 <= i < f ==> #[trigger] counts@[i] == counts_of(levels@, i),
            forall|i: int| 0 <= i < f ==> #[trigger] counts@[i].zeros + counts@[i].nonzeros == total,
        decreases BLOCK_SIZE - f,
    {
        proof {
            lemma_counts(levels@, f as int, total);
        }
        let nonzeros = blocks as u64 - zeros[f];
        counts.push(Counts { zeros: zeros[f], nonzeros, odd_sum: 2 * sums[f] - nonzeros });
        f += 1;
    }
    counts
}

} // verus!
