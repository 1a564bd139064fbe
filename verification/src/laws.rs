//! The engine's stated laws, each proved from the public contracts in
//! `cells`.

use vstd::prelude::*;

use crate::cells::{sealed, spec_density, tick_safe, CellData, CellKind};

verus! {

/// Density monotonicity. When material `a` is denser than material `b`
/// by more than 8, every roll the swap primitive can draw (1 through 9)
/// clears the difference, so `try_swap` from an `a` cell into an
/// unblocked `b` cell is owed success; its success-guarantee clause
/// applies verbatim.
pub proof fn lemma_density_monotonicity(a: CellKind, b: CellKind, roll: int)
    requires
        spec_density(a) > spec_density(b) + 8,
        1 <= roll < 10,
    ensures
        roll <= spec_density(a) - spec_density(b),
        spec_density(a) - spec_density(b) >= 9,
{
}

/// The boundary of the swap decision: every roll the primitive can draw
/// is at most 9, so an advantage of 9 is the least that can never be
/// refused — the top roll already beats an advantage of 8.
pub proof fn lemma_swap_roll_boundary(roll: int)
    requires
        1 <= roll < 10,
    ensures
        roll <= 9,
{
}

/// No self-displacement of Bedrock: whatever one tick does — stated by
/// `tick_safe`, which `Cells::update_all` ensures — every coordinate
/// holding `Bedrock` still holds `Bedrock` afterwards.
pub proof fn lemma_bedrock_immovable(pre: CellData, post: CellData, x: int, y: int)
    requires
        tick_safe(pre, post),
        pre.at(x, y).kind == CellKind::Bedrock,
    ensures
        post.at(x, y).kind == CellKind::Bedrock,
{
}

/// Conservation: across one tick the count of every non-`Air` material
/// is unchanged — swaps move cells, they never create or destroy them.
pub proof fn lemma_conservation(pre: CellData, post: CellData, k: CellKind)
    requires
        tick_safe(pre, post),
        k != CellKind::Air,
    ensures
        post.count_of(k) == pre.count_of(k),
{
}

/// Idempotent settling: a sand cell walled in by `Bedrock` on all eight
/// sides is still walled-in sand after a tick.
pub proof fn lemma_sealed_sand_rests(pre: CellData, post: CellData, x: int, y: int)
    requires
        tick_safe(pre, post),
        sealed(pre, x, y),
    ensures
        sealed(post, x, y),
        post.at(x, y).kind == CellKind::Sand,
{
}

/// Ticks compose: what `tick_safe` preserves over each of two
/// consecutive ticks it preserves over their succession, so the three
/// laws above extend to any number of ticks.
pub proof fn lemma_ticks_compose(a: CellData, b: CellData, c: CellData)
    requires
        tick_safe(a, b),
        tick_safe(b, c),
    ensures
        tick_safe(a, c),
{
}

} // verus!
