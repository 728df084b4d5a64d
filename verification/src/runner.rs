//! The pure decisions of the background worker that drives a game: what to
//! do on each tick, how the additive batch counter evolves, and when the
//! display layer samples the score history. The worker's thread, lock and
//! sleep live outside the library; they consult these functions and run the
//! game accordingly.

use vstd::prelude::*;

verus! {

/// What the worker does on one tick.
#[derive(Debug, PartialEq, Eq, Clone, Copy, Structural)]
pub enum WorkerStep {
    /// The shared game slot is empty: the worker terminates.
    Finish,
    /// Run this many complete games back to back, without pacing.
    RunBatch(u32),
    /// A batch was just consumed: no single step on top of it this tick.
    Rest,
    /// Advance the game by one visible half-turn, for animated play.
    SingleStep,
}

/// The worker's next action, given whether the shared game still exists,
/// the pending batch counter, and whether it has already consumed a batch
/// this tick. Batches come first; once none is pending, a tick that ran a
/// batch rests, and any other tick advances one half-turn. A missing game
/// always means "terminate".
pub fn next_worker_step(game_present: bool, pending: Option<u32>, did_batch: bool) -> (s:
    WorkerStep)
    ensures
        !game_present ==> s == WorkerStep::Finish,
        game_present ==> (pending matches Some(n) ==> s == WorkerStep::RunBatch(n)),
        (game_present && pending is None && did_batch) ==> s == WorkerStep::Rest,
        (game_present && pending is None && !did_batch) ==> s == WorkerStep::SingleStep,
{
    if let Some(n) = pending {
        if game_present {
            WorkerStep::RunBatch(n)
        } else {
            WorkerStep::Finish
        }
    } else if !game_present {
        WorkerStep::Finish
    } else if did_batch {
        WorkerStep::Rest
    } else {
        WorkerStep::SingleStep
    }
}

/// The pending counter after `consumed` of `pending` requested games were
/// run: the counter keeps what is left, and clears when nothing is.
pub fn remaining_batch(pending: u32, consumed: u32) -> (r: Option<u32>)
    requires
        consumed <= pending,
    ensures
        pending > consumed ==> r == Some((pending - consumed) as u32),
        pending == consumed ==> r is None,
{
    let remaining = pending - consumed;
    if remaining > 0 {
        Some(remaining)
    } else {
        None
    }
}

/// A new request for `n` more games adds onto whatever batch is still
/// pending rather than replacing it.
pub fn request_more_games(pending: Option<u32>, n: u32) -> (r: Option<u32>)
    requires
        pending matches Some(g) ==> g + n <= u32::MAX,
    ensures
        pending matches Some(g) ==> r == Some((g + n) as u32),
        pending is None ==> r == Some(n),
{
    match pending {
        Some(g) => Some(g + n),
        None => Some(n),
    }
}

/// Returns true exactly when `n` is a perfect square. The display layer
/// records the cop score after game `g` whenever `g` is a perfect square,
/// sampling the score history at quadratically spaced points.
pub fn is_perfect_square(n: u32) -> (r: bool)
    ensures
        r == exists|k: int| 0 <= k && #[trigger] (k * k) == n,
{
    let n64: u64 = n as u64;
    let mut i: u64 = 0;
    while i * i < n64
        invariant
            n64 == n,
            i <= 0x10000,
            i * i <= 0x1_0000_0000,
            forall|k: int| 0 <= k < i ==> #[trigger] (k * k) != n,
        decreases 0x10001 - i,
    {
        proof {
            assert(i < 0x10000) by (nonlinear_arith)
                requires
                    i * i < n64,
                    n64 < 0x1_0000_0000,
            ;
            assert((i + 1) * (i + 1) > i * i) by (nonlinear_arith);
            assert((i + 1) * (i + 1) <= 0x1_0000_0000) by (nonlinear_arith)
                requires
                    i < 0x10000,
            ;
        }
        i = i + 1;
    }
    if i * i == n64 {
        proof {
            assert((i as int) * (i as int) == n);
        }
        true
    } else {
        proof {
            assert(forall|k: int| k >= i ==> #[trigger] (k * k) >= (i as int) * (i as int))
                by (nonlinear_arith);
        }
        false
    }
}

} // verus!
