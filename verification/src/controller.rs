//! The adaptive step-length controller: rewards a sustained run of
//! energy-improving iterations with a larger step, backs off at once on any
//! regression.

use vstd::prelude::*;
use crate::graph::MAX_STEP;

verus! {

/// How many consecutive improving iterations buy one step-length growth.
pub const PROGRESS_LIMIT: i64 = 5;

/// The previous iteration's energy, widened; `None` stands for the
/// infinitely high energy assumed before the first iteration.
pub open spec fn option_view(o: Option<u128>) -> Option<int> {
    match o {
        Option::None => Option::None,
        Option::Some(e) => Option::Some(e as int),
    }
}

/// Whether this iteration's energy improves on the previous one; every
/// finite energy improves on the starting `None`.
pub open spec fn improves(energy: int, old_energy: Option<int>) -> bool {
    match old_energy {
        Option::None => true,
        Option::Some(o) => energy < o,
    }
}

/// The progress counter after one adaptation: counts consecutive improving
/// iterations, wrapping to zero when the growth threshold is reached, and
/// resets to zero on any non-improving iteration.
pub open spec fn next_progress(progress: int, improved: bool) -> int {
    if improved {
        if progress + 1 >= PROGRESS_LIMIT {
            0
        } else {
            progress + 1
        }
    } else {
        0
    }
}

/// The step length after one adaptation: grown by a factor `10/9` when the
/// growth threshold is reached, kept while an improving run is still being
/// counted, and shrunk by a factor `9/10` on any non-improving iteration
/// (both truncating).
pub open spec fn next_step_length(step: int, progress: int, improved: bool) -> int {
    if improved {
        if progress + 1 >= PROGRESS_LIMIT {
            step * 10 / 9
        } else {
            step
        }
    } else {
        step * 9 / 10
    }
}

/// Adapts the step length from the energy trend: five consecutive
/// improving iterations buy exactly one growth of the step (and reset the
/// progress counter); any non-improving iteration resets the counter and
/// shrinks the step at once.
pub fn update_step_length(
    step_length: i64,
    energy: u128,
    old_energy: Option<u128>,
    progress: &mut i64,
) -> (r: i64)
    requires
        0 <= step_length <= MAX_STEP,
        0 <= *old(progress) < PROGRESS_LIMIT,
    ensures
        *final(progress) == next_progress(
            *old(progress) as int,
            improves(energy as int, option_view(old_energy)),
        ),
        r as int == next_step_length(
            step_length as int,
            *old(progress) as int,
            improves(energy as int, option_view(old_energy)),
        ),
        0 <= *final(progress) < PROGRESS_LIMIT,
        0 <= r <= 72817,
{
    let improved = match old_energy {
        Option::None => true,
        Option::Some(o) => energy < o,
    };
    if improved {
        *progress = *progress + 1;
        if *progress >= PROGRESS_LIMIT {
            *progress = 0;
            (((step_length as u64) * 10) / 9) as i64
        } else {
            step_length
        }
    } else {
        *progress = 0;
        (((step_length as u64) * 9) / 10) as i64
    }
}

} // verus!
