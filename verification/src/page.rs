use vstd::prelude::*;

verus! {

/// Alignment of a page request, given as a power of two.
#[derive(Clone, Copy, Debug, PartialEq, Eq, Structural)]
pub struct Align {
    pub power: u32,
}

impl Align {
    /// The size in bytes: `2^power`.
    pub open spec fn spec_size(self) -> int {
        (1usize << (self.power as usize)) as int
    }

    /// Base-two logarithm of the alignment.
    pub fn as_power(&self) -> (r: u32)
        ensures
            r == self.power,
    {
        self.power
    }

    /// The alignment in bytes.
    pub fn as_size(&self) -> (r: usize)
        requires
            self.power < usize::BITS,
        ensures
            r as int == self.spec_size(),
    {
        1usize << (self.power as usize)
    }
}

/// A block of pages handed out by the allocator.
#[derive(Clone, Copy, Debug, PartialEq, Eq, Structural)]
pub struct Page {
    pub addr: usize,
    pub align: Align,
}

impl Page {
    pub fn new(addr: usize, align: Align) -> (p: Page)
        ensures
            p.addr == addr,
            p.align == align,
    {
        Page { addr, align }
    }
}

/// Why a request for pages was refused.
#[derive(Clone, Copy, Debug, PartialEq, Eq, Structural)]
pub enum AllocError {
    /// The requested alignment is larger than the largest block.
    Misaligned,
    /// No free block is large enough.
    OutOfMemory,
}

} // verus!
