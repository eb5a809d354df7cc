//! Recording the overall match in a register.

use vstd::prelude::*;
use crate::thompson::pike_jit::Layout;

verus! {

/// The way to record captures of a pattern without groups: the data of a
/// thread is the start of its match, and the best match is kept in two
/// words of the stack frame. No memory is needed for it.
#[derive(Debug, Clone, Copy)]
pub struct CGImplReg;

impl CGImplReg {
    /// The memory that the capture groups ask for at the start, in words.
    pub fn init_mem_size(layout: &Layout) -> (r: usize)
        ensures
            r == 0,
    {
        0
    }
}

} // verus!
