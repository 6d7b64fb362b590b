use vstd::prelude::*;

verus! {

/// Adds one to `val`, failing instead of wrapping at `u32::MAX`.
pub fn add1(val: u32) -> (r: Result<u32, &'static str>)
    ensures
        val < u32::MAX ==> r == Ok::<u32, &'static str>((val + 1) as u32),
        val == u32::MAX ==> r == Err::<u32, &'static str>("add1: u32 number overflow"),
{
    if val < u32::MAX {
        Ok(val + 1)
    } else {
        Err("add1: u32 number overflow")
    }
}

} // verus!
