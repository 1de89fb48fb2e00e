use vstd::prelude::*;

verus! {

/// The sum of two 64-bit numbers.
pub fn add(left: u64, right: u64) -> (r: u64)
    requires
        left + right <= u64::MAX,
    ensures
        r == left + right,
{
    left + right
}

/// The sum of two 32-bit numbers.
pub fn addition(a: u32, b: u32) -> (r: u32)
    requires
        a + b <= u32::MAX,
    ensures
        r == a + b,
{
    a + b
}

} // verus!
