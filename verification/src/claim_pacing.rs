//! How many new objectives may be claimed in one tick.
use vstd::prelude::*;

verus! {

/// What is left of `cap` when `taken` are taken.
pub open spec fn headroom(cap: usize, taken: usize) -> int {
    if cap > taken {
        cap - taken
    } else {
        0
    }
}

/// The number of new objectives that may be claimed this tick.
///
/// `active` squads are alive, forming or out fighting; `forming` of them still have an incomplete
/// roster. A complete squad frees its forming slot and keeps its concurrent slot; a forming squad
/// holds both. The tighter of the two headrooms is the budget: while the rosters that may form at
/// once stay incomplete nothing new is claimed, and neither is anything at the concurrent cap.
pub fn claims_allowed(active: usize, forming: usize, max_concurrent: usize, max_forming: usize) -> (n: usize)
    ensures
        n == if headroom(max_concurrent, active) <= headroom(max_forming, forming) {
            headroom(max_concurrent, active)
        } else {
            headroom(max_forming, forming)
        },
        n == 0 <==> active >= max_concurrent || forming >= max_forming,
        n > 0 ==> active + n <= max_concurrent && forming + n <= max_forming,
        n > 0 ==> active + n == max_concurrent || forming + n == max_forming,
{
    let by_concurrent: usize = max_concurrent.saturating_sub(active);
    let by_forming: usize = max_forming.saturating_sub(forming);
    if by_concurrent <= by_forming {
        by_concurrent
    } else {
        by_forming
    }
}

/// Claiming what is allowed, with every claim a forming squad, passes neither cap.
pub proof fn law_claims_respect_the_caps(
    active: usize,
    forming: usize,
    max_concurrent: usize,
    max_forming: usize,
    n: int,
)
    requires
        active <= max_concurrent,
        forming <= max_forming,
        0 <= n <= headroom(max_concurrent, active),
        n <= headroom(max_forming, forming),
    ensures
        active + n <= max_concurrent,
        forming + n <= max_forming,
{
}

/// What is left of a cap is all that can still be taken without passing it.
pub proof fn law_headroom_is_all_that_is_left(cap: usize, taken: usize, n: int)
    requires
        0 <= n,
    ensures
        n <= headroom(cap, taken) <==> n == 0 || taken + n <= cap,
{
}

}
