//! Recording capture groups in one array for each thread.

use vstd::prelude::*;
use crate::thompson::pike_jit::Layout;

verus! {

/// The way to record captures in which every thread owns an array with one
/// word for each register. A fork copies the array. The arrays of dead
/// threads are kept in a free list.
#[derive(Debug, Clone, Copy)]
pub struct CGImplArray;

impl CGImplArray {
    /// The size of the free list, in bytes: one word for each thread that
    /// may be alive, and two more.
    pub fn free_list_size(layout: &Layout) -> (r: usize)
        requires
            layout.wf(),
        ensures
            r == (3 * layout.max_instr_len + 2) * 8,
    {
        (layout.max_concurrent_threads() + 2) * 8
    }

    /// The size of an array, in bytes, or `None` when it cannot be counted.
    pub fn array_size(layout: &Layout) -> (r: Option<usize>)
        ensures
            r == (if layout.register_count * 8 <= usize::MAX {
                Some((layout.register_count * 8) as usize)
            } else {
                None
            }),
    {
        layout.register_count.checked_mul(8)
    }

    /// The memory that the capture groups ask for at the start, in bytes:
    /// the free list and one array for each thread that may be alive.
    /// `None` when it cannot be counted.
    pub fn init_mem_size(layout: &Layout) -> (r: Option<usize>)
        requires
            layout.wf(),
        ensures
            r == (if (3 * layout.max_instr_len + 2) * 8 + (layout.register_count * 8) * (3
                * layout.max_instr_len) <= usize::MAX {
                Some(
                    ((3 * layout.max_instr_len + 2) * 8 + (layout.register_count * 8) * (3
                        * layout.max_instr_len)) as usize,
                )
            } else {
                None
            }),
    {
        let threads = layout.max_concurrent_threads();
        let free_list = CGImplArray::free_list_size(layout);
        match CGImplArray::array_size(layout) {
            Some(array) => {
                match array.checked_mul(threads) {
                    Some(arrays) => free_list.checked_add(arrays),
                    None => None,
                }
            },
            None => {
                proof {
                    if threads > 0 {
                        assert((layout.register_count * 8) * threads >= layout.register_count * 8)
                            by (nonlinear_arith)
                            requires
                                threads >= 1,
                                layout.register_count * 8 >= 0,
                        ;
                    }
                }
                if threads == 0 {
                    Some(free_list)
                } else {
                    None
                }
            },
        }
    }
}

} // verus!
