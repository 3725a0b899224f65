use vstd::prelude::*;

verus! {

broadcast use vstd::layout::layout_of_primitives;

/// A node of a free list placed in free memory: the address of the next
/// node, `0` for none.
pub struct Block {
    pub next: usize,
}

/// Size in bytes of a node: one machine word.
pub fn block_struct_size() -> (r: usize)
    ensures
        r as nat == vstd::layout::size_of::<usize>(),
        r > 0,
{
    core::mem::size_of::<usize>()
}

impl Block {
    /// Level of the node placed at `addr` in a page of `page_size` bytes: the
    /// index of its word in the page.
    pub fn level(addr: usize, page_size: usize) -> (r: usize)
        requires
            page_size > 0,
        ensures
            r as nat == (addr % page_size) as nat / vstd::layout::size_of::<usize>(),
    {
        let offset = addr % page_size;
        offset / block_struct_size()
    }
}

} // verus!
