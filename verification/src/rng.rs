//! The seedable random-number source, supplied by the `rltk` crate and
//! threaded explicitly through every generation call that needs it.

use vstd::prelude::*;

verus! {

/// Declares rltk's `RandomNumberGenerator` (bracket-random's xorshift
/// generator) so it can appear in verified signatures; its
/// state stays opaque to the verifier.
#[verifier::external_type_specification]
#[verifier::external_body]
pub struct ExRandomNumberGenerator(rltk::RandomNumberGenerator);

/// Relies on bracket-random's `RandomNumberGenerator::roll_dice` with a
/// single die: `roll_dice(1, sides)` performs one `gen_range(1..sides + 1)`
/// draw, so the result is always within `[1, sides]`.
#[verifier::external_body]
pub(crate) fn roll(rng: &mut rltk::RandomNumberGenerator, sides: i32) -> (r: i32)
    requires
        1 <= sides < i32::MAX,
    ensures
        1 <= r <= sides,
{
    rng.roll_dice(1, sides)
}

} // verus!
