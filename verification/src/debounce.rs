//! Arithmetic of one debounce counter.
//!
//! A counter counts the pressed samples that a key has shown in a row. It
//! stops at [`COUNTER_MAX`] instead of wrapping, and one released sample
//! takes it back to zero.

use vstd::prelude::*;
use vstd::math::min;

verus! {

/// The value at which a counter saturates.
pub const COUNTER_MAX: u8 = 255;

/// The counter that follows `count` once one more sample has been taken.
pub open spec fn next_count(count: u8, pressed: bool) -> u8 {
    if !pressed {
        0
    } else if count < COUNTER_MAX {
        (count + 1) as u8
    } else {
        COUNTER_MAX
    }
}

/// The counter that follows `count` once `samples` have been taken, the
/// oldest sample first.
pub open spec fn count_after(count: u8, samples: Seq<bool>) -> u8
    decreases samples.len(),
{
    if samples.len() == 0 {
        count
    } else {
        next_count(count_after(count, samples.drop_last()), samples.last())
    }
}

/// Whether a key whose counter stands at `count` is reported as pressed.
pub open spec fn is_pressed(count: u8, threshold: u8) -> bool {
    count > threshold
}

/// A run of `n` pressed samples.
pub open spec fn pressed_run(n: nat) -> Seq<bool> {
    Seq::new(n, |k: int| true)
}

/// Takes one sample into a counter: a pressed sample adds one, saturating at
/// [`COUNTER_MAX`]; a released sample resets the counter.
pub fn advance(count: u8, pressed: bool) -> (next: u8)
    ensures
        next == next_count(count, pressed),
        !pressed ==> next == 0,
        pressed && count < COUNTER_MAX ==> next == count + 1,
        pressed && count == COUNTER_MAX ==> next == COUNTER_MAX,
{
    if pressed {
        count.saturating_add(1)
    } else {
        0
    }
}

/// Saturation: `n` pressed samples in a row raise a counter by `n`, but never
/// beyond [`COUNTER_MAX`]. A counter that starts at zero therefore stands at
/// the smaller of `n` and [`COUNTER_MAX`].
pub proof fn lemma_pressed_run_saturates(count: u8, n: nat)
    ensures
        count_after(count, pressed_run(n)) == min(count + n, COUNTER_MAX as int),
        count == 0 ==> count_after(count, pressed_run(n)) == min(n as int, COUNTER_MAX as int),
    decreases n,
{
    if n > 0 {
        let shorter: nat = (n - 1) as nat;
        assert(pressed_run(n).drop_last() =~= pressed_run(shorter));
        lemma_pressed_run_saturates(count, shorter);
    }
}

/// Reset: whatever came before, a counter stands at zero right after a
/// released sample.
pub proof fn lemma_release_resets(count: u8, samples: Seq<bool>)
    requires
        samples.len() > 0,
        !samples.last(),
    ensures
        count_after(count, samples) == 0,
{
}

/// A counter never exceeds [`COUNTER_MAX`], so with the threshold at
/// [`COUNTER_MAX`] no history of samples makes a key pressed.
pub proof fn lemma_max_threshold_never_pressed(count: u8, samples: Seq<bool>)
    ensures
        !is_pressed(count_after(count, samples), COUNTER_MAX),
{
}

/// With the threshold at zero a single pressed sample is enough.
pub proof fn lemma_zero_threshold_one_sample(count: u8)
    ensures
        is_pressed(next_count(count, true), 0),
{
}

} // verus!
