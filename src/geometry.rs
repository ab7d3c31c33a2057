//! Block-size rules of a device's geometry.
use vstd::prelude::*;

verus! {

/// `n` is a power of two (1, 2, 4, ...).
pub open spec fn is_pow2(n: nat) -> bool
    decreases n,
{
    if n == 0 {
        false
    } else if n == 1 {
        true
    } else {
        n % 2 == 0 && is_pow2(n / 2)
    }
}

/// Block sizes that a device may be registered with: both powers of two, the
/// logical one no larger than the physical one.
pub open spec fn valid_geometry(logical_block_size: nat, physical_block_size: nat) -> bool {
    &&& is_pow2(logical_block_size)
    &&& is_pow2(physical_block_size)
    &&& logical_block_size <= physical_block_size
}

/// Whether `n` is a power of two.
pub fn is_power_of_two(n: u32) -> (r: bool)
    ensures
        r == is_pow2(n as nat),
{
    let mut x: u32 = n;
    while x > 1 && x % 2 == 0
        invariant
            is_pow2(x as nat) == is_pow2(n as nat),
        decreases x,
    {
        x = x / 2;
    }
    x == 1
}

/// Whether the block sizes make a valid geometry.
pub fn check_geometry(logical_block_size: u32, physical_block_size: u32) -> (r: bool)
    ensures
        r == valid_geometry(logical_block_size as nat, physical_block_size as nat),
{
    is_power_of_two(logical_block_size) && is_power_of_two(physical_block_size)
        && logical_block_size <= physical_block_size
}

} // verus!
