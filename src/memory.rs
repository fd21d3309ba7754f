use vstd::prelude::*;

verus! {

/// The address at which physical address `phys_addr` is reachable when all
/// physical memory is mapped at `physical_memory_offset`.
pub fn phys2virt(phys_addr: usize, physical_memory_offset: usize) -> (r: usize)
    requires
        phys_addr + physical_memory_offset <= usize::MAX,
    ensures
        r == phys_addr + physical_memory_offset,
{
    phys_addr + physical_memory_offset
}

} // verus!
