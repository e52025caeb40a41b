//! The compute backend for the float kernels that callers run over entry
//! schedules.
use vstd::prelude::*;

verus! {

/// The kernels are portable scalar loops on every target.
pub fn backend_name() -> (r: &'static str)
    ensures
        r@ == "scalar"@,
{
    proof {
        reveal_strlit("scalar");
    }
    "scalar"
}

} // verus!
