use vstd::prelude::*;

verus! {

/// Multiplier of the chance roll's state mix.
pub const MIX: u64 = 0x9E3779B97F4A7C15;

/// One mixing round of the roll state: multiply by `MIX` (wrapping), then fold the
/// high bits down with a right shift by 33.
pub open spec fn mix(x: u64) -> u64 {
    let y = ((x as nat * MIX as nat) % 0x1_0000_0000_0000_0000) as u64;
    y ^ (y >> 33u64)
}

/// Whether a roll whose mixed state is `m` runs a block of chance `chance`: the
/// state with its sign bit cleared, taken modulo 100, is below the chance.
pub open spec fn passes(m: u64, chance: u64) -> bool {
    ((m & 0x7FFF_FFFF_FFFF_FFFFu64) % 100) < chance
}

/// The mix that the emitted roll applies to its state word.
pub fn chaos_mix(x: u64) -> (r: u64)
    ensures
        r == mix(x),
{
    let y = x.wrapping_mul(MIX);
    y ^ (y >> 33u64)
}

/// Whether the emitted roll, with mixed state `m`, runs a block of chance `chance`.
pub fn chaos_passes(m: u64, chance: u64) -> (r: bool)
    ensures
        r == passes(m, chance),
{
    ((m & 0x7FFF_FFFF_FFFF_FFFFu64) % 100) < chance
}

/// A block of chance 0 never runs and one of chance 100 (or more) always runs,
/// whatever the state.
pub proof fn lemma_roll_bounds(m: u64, chance: u64)
    ensures
        chance == 0 ==> !passes(m, chance),
        chance >= 100 ==> passes(m, chance),
{
}

} // verus!
