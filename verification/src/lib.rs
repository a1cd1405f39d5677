//! Backlight brightness on a perceptually-uniform logarithmic scale.
//!
//! Two "up"/"down" commands move a device's brightness along a quantized
//! logarithmic scale: repeated presses of "up" traverse the whole range
//! `[0, max]` in evenly-perceived increments, and repeated presses of
//! "down" retrace exactly the same values in reverse.  The [`stepper`]
//! module holds the step engine and its device-model traits; the
//! [`controller`] module decides which device's attribute values feed the
//! engine.  Reading and writing the attributes themselves, and notifying
//! the desktop, are collaborators' work and stay outside.

use vstd::prelude::*;

pub mod controller;
pub mod stepper;

verus! {

/// Percentage of the maximum that a brightness value amounts to,
/// as handed to the desktop notifier.
pub fn notify_percent(new_b: u64, max_b: u64) -> (r: u64)
    requires
        max_b > 0,
        new_b <= max_b,
    ensures
        r == new_b * 100 / (max_b as int),
        r <= 100,
{
    let wide: u128 = (new_b as u128) * 100 / (max_b as u128);
    proof {
        let nb = new_b as int;
        let mb = max_b as int;
        assert(nb * 100 <= mb * 100) by (nonlinear_arith)
            requires
                nb <= mb,
        ;
        vstd::arithmetic::div_mod::lemma_div_is_ordered(nb * 100, mb * 100, mb);
        vstd::arithmetic::div_mod::lemma_div_multiples_vanish(100, mb);
        assert(mb * 100 == 100 * mb);
    }
    wide as u64
}

} // verus!
