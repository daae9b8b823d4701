use vstd::prelude::*;

verus! {

/// Size in bytes of the block allocated for an object that asks for `size`
/// bytes: at least 8, room for one field.
pub fn picohp_object_alloc_size(size: u64) -> (r: u64)
    ensures
        r == if size < 8 { 8 } else { size },
{
    if size < 8 {
        8
    } else {
        size
    }
}

/// Version of the runtime, for compatibility checks by compiled programs.
pub fn pico_rt_version() -> (r: i32)
    ensures
        r == 2,
{
    2
}

} // verus!
