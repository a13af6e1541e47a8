//! The capacity model: a declared size unit converted to an exact byte count.

use vstd::prelude::*;

verus! {

/// A declared storage size: a count of kilobytes, megabytes or gigabytes.
#[derive(Debug, Clone, Copy, PartialEq, Eq, Structural)]
pub enum MemorySize {
    KB(u64),
    MB(u64),
    GB(u64),
}

impl MemorySize {
    /// The exact number of bytes this size stands for: the unit count times
    /// 1024, 1024 squared, or 1024 cubed.
    pub open spec fn byte_size_spec(self) -> int {
        match self {
            MemorySize::KB(n) => n * 1024,
            MemorySize::MB(n) => n * 1024 * 1024,
            MemorySize::GB(n) => n * 1024 * 1024 * 1024,
        }
    }

    /// True when the byte count is computable as a `u64`; larger sizes are
    /// out of range for the store's accounting.
    pub open spec fn fits_u64(self) -> bool {
        self.byte_size_spec() <= u64::MAX
    }

    /// The size of the memory in bytes.
    pub fn size_bytes(&self) -> (bytes: u64)
        requires
            self.fits_u64(),
        ensures
            bytes == self.byte_size_spec(),
    {
        match self {
            MemorySize::KB(kb) => *kb * 1024,
            MemorySize::MB(mb) => *mb * 1024 * 1024,
            MemorySize::GB(gb) => *gb * 1024 * 1024 * 1024,
        }
    }
}

} // verus!
