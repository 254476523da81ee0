//! How heavy proof generation is next to witness generation, which the
//! report colours the prove stage by.
use vstd::prelude::*;
use crate::pipeline::Outcome;
use vstd::math::max;

verus! {

/// The prove stage's wall-clock time next to the witness stage's.
#[derive(Debug, Clone, Copy, PartialEq, Eq)]
pub enum Heaviness {
    /// Prove takes less time than witness (shown green).
    Lighter,
    /// Prove takes at least as long, but less than twice as long (yellow).
    Heavier,
    /// Prove takes at least twice as long (red).
    MuchHeavier,
}

/// The witness time used as the divisor: at least 1 ms, so that the ratio
/// is defined.
pub open spec fn divisor_ms(witness_ms: u64) -> int {
    if witness_ms == 0 {
        1
    } else {
        witness_ms as int
    }
}

/// The ratio `prove_ms / max(witness_ms, 1)` compared with 2 and 1, exactly.
pub open spec fn heaviness_of(witness_ms: u64, prove_ms: u64) -> Heaviness {
    let d = divisor_ms(witness_ms);
    if prove_ms >= 2 * d {
        Heaviness::MuchHeavier
    } else if prove_ms >= d {
        Heaviness::Heavier
    } else {
        Heaviness::Lighter
    }
}

/// The classification is by the ratio `prove_ms / max(witness_ms, 1)`: at
/// least 2 is much heavier, at least 1 (and below 2) heavier, below 1
/// lighter.
pub proof fn lemma_heaviness_thresholds(witness_ms: u64, prove_ms: u64)
    ensures
        heaviness_of(witness_ms, prove_ms) == Heaviness::MuchHeavier <==> prove_ms >= 2 * max(
            witness_ms as int,
            1,
        ),
        heaviness_of(witness_ms, prove_ms) == Heaviness::Heavier <==> max(witness_ms as int, 1)
            <= prove_ms < 2 * max(witness_ms as int, 1),
        heaviness_of(witness_ms, prove_ms) == Heaviness::Lighter <==> prove_ms < max(
            witness_ms as int,
            1,
        ),
{
}

/// How heavy the prove stage of `o` is next to its witness stage.
pub fn heaviness(o: &Outcome) -> (h: Heaviness)
    ensures
        h == heaviness_of(o.witness.time_ms, o.prove.time_ms),
        h == Heaviness::MuchHeavier <==> o.prove.time_ms >= 2 * max(o.witness.time_ms as int, 1),
        h == Heaviness::Heavier <==> max(o.witness.time_ms as int, 1) <= o.prove.time_ms < 2 * max(
            o.witness.time_ms as int,
            1,
        ),
        h == Heaviness::Lighter <==> o.prove.time_ms < max(o.witness.time_ms as int, 1),
{
    proof {
        lemma_heaviness_thresholds(o.witness.time_ms, o.prove.time_ms);
    }
    let d: u128 = if o.witness.time_ms == 0 {
        1
    } else {
        o.witness.time_ms as u128
    };
    let p = o.prove.time_ms as u128;
    if p >= 2 * d {
        Heaviness::MuchHeavier
    } else if p >= d {
        Heaviness::Heavier
    } else {
        Heaviness::Lighter
    }
}

} // verus!
