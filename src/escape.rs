use crate::spectrum::{spectrum, wavelength_to_rgb, Rgb};
use vstd::prelude::*;

verus! {

/// The count an orbit reports: the number of steps completed before the
/// escape test first fired, at step `first_escape`. An orbit that never
/// escapes has `first_escape == max_iterations` and reports
/// `max_iterations - 1` (0 under a cap of 0).
pub open spec fn reported_count(first_escape: int, max_iterations: int) -> int {
    if first_escape < max_iterations {
        first_escape
    } else if max_iterations == 0 {
        0
    } else {
        max_iterations - 1
    }
}

/// The wavelength an iteration count is drawn at: the count rescaled
/// linearly from [0, max_iterations) onto [380, 780).
pub open spec fn wavelength_spec(iterations: int, max_iterations: int) -> int {
    380 + iterations * 400 / max_iterations
}

/// The escape count of an orbit whose test `|z| >= 2` first fired at step
/// `first_escape` (`max_iterations` when it never fired within the cap).
pub fn iteration_count(first_escape: u32, max_iterations: u32) -> (r: u32)
    requires
        first_escape <= max_iterations,
    ensures
        r == reported_count(first_escape as int, max_iterations as int),
        max_iterations > 0 ==> r < max_iterations,
{
    if first_escape < max_iterations {
        first_escape
    } else if max_iterations == 0 {
        0
    } else {
        max_iterations - 1
    }
}

/// The wavelength in nanometres that an iteration count is coloured by.
pub fn wavelength_of(iterations: u32, max_iterations: u32) -> (r: u32)
    requires
        iterations < max_iterations,
    ensures
        r == wavelength_spec(iterations as int, max_iterations as int),
        380 <= r < 780,
{
    let scaled: u64 = iterations as u64 * 400;
    let step: u64 = scaled / max_iterations as u64;
    proof {
        let (i, m) = (iterations as int, max_iterations as int);
        assert(i * 400 / m < 400) by (nonlinear_arith)
            requires
                0 <= i < m,
        ;
    }
    380 + step as u32
}

/// The colour of a pixel whose orbit reported `iterations`.
pub fn pixel_color(iterations: u32, max_iterations: u32) -> (r: Rgb)
    requires
        iterations < max_iterations,
    ensures
        r == spectrum(wavelength_spec(iterations as int, max_iterations as int)),
{
    wavelength_to_rgb(wavelength_of(iterations, max_iterations))
}

} // verus!
