//! Recording capture groups in arrays that threads share until they write.

use vstd::prelude::*;
use crate::thompson::pike_jit::Layout;

verus! {

/// The way to record captures in which threads share an array until one of
/// them writes to it. Every array counts the threads that use it; a fork
/// adds one to the count, and a write copies the array first where the
/// count is above one. An array that no thread uses goes to a free list.
#[derive(Debug, Clone, Copy)]
pub struct CGImplCowArray;

impl CGImplCowArray {
    /// The size of the free list, in words: one word for each thread that
    /// may be alive, and two more.
    pub fn free_list_size(layout: &Layout) -> (r: usize)
        requires
            layout.wf(),
        ensures
            r == 3 * layout.max_instr_len + 2,
    {
        layout.max_concurrent_threads() + 2
    }

    /// The size of an array, in words, or `None` when it cannot be counted:
    /// one word for each register, and one for the count.
    pub fn array_size(layout: &Layout) -> (r: Option<usize>)
        ensures
            r == (if layout.register_count + 1 <= usize::MAX {
                Some((layout.register_count + 1) as usize)
            } else {
                None
            }),
    {
        layout.register_count.checked_add(1)
    }

    /// The memory that the capture groups ask for at the start, in words:
    /// the free list, one array for each thread that may be alive and one
    /// for the best match. `None` when it cannot be counted.
    pub fn init_mem_size(layout: &Layout) -> (r: Option<usize>)
        requires
            layout.wf(),
        ensures
            r == (if (3 * layout.max_instr_len + 2) + (layout.register_count + 1) * (3
                * layout.max_instr_len + 1) <= usize::MAX {
                Some(
                    ((3 * layout.max_instr_len + 2) + (layout.register_count + 1) * (3
                        * layout.max_instr_len + 1)) as usize,
                )
            } else {
                None
            }),
    {
        let threads = layout.max_concurrent_threads() + 1;
        let free_list = CGImplCowArray::free_list_size(layout);
        match CGImplCowArray::array_size(layout) {
            Some(array) => {
                match array.checked_mul(threads) {
                    Some(arrays) => free_list.checked_add(arrays),
                    None => None,
                }
            },
            None => {
                proof {
                    assert((layout.register_count + 1) * threads >= layout.register_count + 1)
                        by (nonlinear_arith)
                        requires
                            threads >= 1,
                            layout.register_count + 1 >= 0,
                    ;
                }
                None
            },
        }
    }

    /// Whether the machine code must free and copy the data of threads:
    /// it must, since the arrays are counted.
    pub fn require_thread_tree() -> (r: bool)
        ensures
            r,
    {
        true
    }
}

} // verus!
