//! The Itakura-band variant, not yet implemented: it accepts its inputs and
//! reports a zero score with an empty path.

use vstd::prelude::*;

use crate::cost::{Cost, Dist};
use crate::errors::DtwError;

verus! {

/// Dynamic time warping within an Itakura band.  The banded evaluation is
/// not implemented: the call reports a zero score, an empty path, and start
/// offset zero.
pub fn dtw_itakura<D: Dist>(_x1: &[i32], _x2: &[i32], _dist: &D, _band: usize) -> (res: Result<
    (Cost, (Vec<usize>, Vec<usize>), usize),
    DtwError,
>)
    ensures
        res matches Ok((score, paths, start)) ==> {
            &&& score == Cost::Fin(0u64)
            &&& paths.0@.len() == 0
            &&& paths.1@.len() == 0
            &&& start == 0
        },
        res is Ok,
{
    Ok((Cost::Fin(0), (Vec::new(), Vec::new()), 0))
}

} // verus!
