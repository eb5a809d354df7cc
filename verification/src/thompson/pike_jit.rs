//! What the native-code engine computes on the host.
//!
//! The native-code engine runs the same simulation as the interpreter, in
//! machine code that is written for one bytecode. The machine code works in
//! a scratch memory of 8-byte words that the host owns:
//!
//! ```text
//! | visited set | active queue | next queue | capture groups |
//! ```
//!
//! This module holds what the host computes for it: the layout of the
//! scratch memory, the memory that each way of recording capture groups
//! asks for, the arguments of a call, and the reading of the results.

pub mod cg_impl_array;
pub mod cg_impl_cow_array;
pub mod cg_impl_register;
pub mod cg_impl_tree;

use vstd::prelude::*;
use vstd::utf8::*;
use vstd::string::StringSliceAdditionalSpecFns;
use crate::scan::prev_char;
use crate::thompson::bytecode::{Bytecode, Instr, Instruction};
use crate::util::{find_prev_char, Char, Input};

verus! {

/// The size of a word of the scratch memory, in bytes.
pub const PTR_SIZE: usize = 8;

/// The size of a thread in a queue, in words: its data and the address of
/// its code.
pub const THREAD_SIZE: usize = 2;

/// The number of instructions `WriteReg` among the first `n` instructions.
pub open spec fn write_regs(code: Seq<Instr>, n: nat) -> nat
    decreases n,
{
    if n == 0 || n > code.len() {
        0
    } else if code[n - 1] is WriteReg {
        write_regs(code, (n - 1) as nat) + 1
    } else {
        write_regs(code, (n - 1) as nat)
    }
}

/// The layout of the scratch memory for one bytecode.
#[derive(Debug, Clone, Copy, PartialEq, Eq, Structural)]
pub struct Layout {
    /// The number of instructions of the bytecode.
    pub max_instr_len: usize,
    /// The number of capture registers: two for each group.
    pub register_count: usize,
    /// The number of instructions that write a capture register.
    pub write_reg_count: usize,
}

impl Layout {
    /// True when the visited set and the two queues fit in the address
    /// space.
    pub open spec fn wf(&self) -> bool {
        72 * self.max_instr_len + 32 <= usize::MAX
    }

    /// The layout for a bytecode that reports `capture_count` groups, or
    /// `None` when the visited set and the queues do not fit in the address
    /// space.
    pub fn new(bytecode: &Bytecode, capture_count: usize) -> (r: Option<Layout>)
        ensures
            r is Some <==> 72 * bytecode@.len() + 32 <= usize::MAX && 2 * capture_count <= usize::MAX,
            r matches Some(layout) ==> {
                &&& layout.wf()
                &&& layout.max_instr_len == bytecode@.len()
                &&& layout.register_count == 2 * capture_count
                &&& layout.write_reg_count == write_regs(bytecode@.instructions, bytecode@.len())
            },
    {
        let n = bytecode.instructions.len();
        if n > (usize::MAX - 32) / 72 {
            return None;
        }
        let register_count = match capture_count.checked_mul(2) {
            Some(count) => count,
            None => {
                return None;
            },
        };
        let mut write_reg_count: usize = 0;
        let mut i: usize = 0;
        while i < n
            invariant
                i <= n,
                n == bytecode.instructions.len(),
                write_reg_count == write_regs(bytecode@.instructions, i as nat),
                write_reg_count <= i,
            decreases n - i,
        {
            assert(bytecode@.instructions[i as int] == bytecode.instructions@[i as int]@);
            match &bytecode.instructions[i] {
                Instruction::WriteReg(_) => {
                    write_reg_count += 1;
                },
                _ => {},
            }
            i += 1;
        }
        Some(Layout { max_instr_len: n, register_count, write_reg_count })
    }

    /// The size of the visited set, in words: one word for each
    /// instruction.
    pub fn visited_set_size(&self) -> (r: usize)
        ensures
            r == self.max_instr_len,
    {
        self.max_instr_len
    }

    /// The offset at which the queues start, in bytes.
    pub fn queue_start(&self) -> (r: usize)
        requires
            self.wf(),
        ensures
            r == self.max_instr_len * 8,
    {
        self.max_instr_len * PTR_SIZE
    }

    /// The size of one queue, in words: room for two threads for each
    /// instruction, and for one more.
    pub fn queue_size(&self) -> (r: usize)
        requires
            self.wf(),
        ensures
            r == (self.max_instr_len * 2 + 1) * 2,
    {
        (self.max_instr_len * 2 + 1) * THREAD_SIZE
    }

    /// The size of the two queues together, in words.
    pub fn total_queue_size(&self) -> (r: usize)
        requires
            self.wf(),
        ensures
            r == (self.max_instr_len * 2 + 1) * 4,
    {
        self.queue_size() * 2
    }

    /// The offset at which the memory of the capture groups starts, in
    /// bytes: just behind the two queues.
    pub fn cg_mem_start(&self) -> (r: usize)
        requires
            self.wf(),
        ensures
            r == (self.max_instr_len + (self.max_instr_len * 2 + 1) * 4) * 8,
            r == self.max_instr_len * 8 + (self.max_instr_len * 2 + 1) * 4 * 8,
    {
        (self.visited_set_size() + self.total_queue_size()) * PTR_SIZE
    }

    /// An upper bound of the number of threads that are alive at once.
    pub fn max_concurrent_threads(&self) -> (r: usize)
        requires
            self.wf(),
        ensures
            r == 3 * self.max_instr_len,
    {
        3 * self.max_instr_len
    }

    /// The size of the scratch memory at the start of a search, in words,
    /// when the capture groups ask for `cg_size` words; `None` when it does
    /// not fit in the address space.
    pub fn initial_mem_size(&self, cg_size: usize) -> (r: Option<usize>)
        requires
            self.wf(),
        ensures
            r == (if self.max_instr_len + (self.max_instr_len * 2 + 1) * 4 + cg_size <= usize::MAX {
                Some((self.max_instr_len + (self.max_instr_len * 2 + 1) * 4 + cg_size) as usize)
            } else {
                None
            }),
    {
        (self.visited_set_size() + self.total_queue_size()).checked_add(cg_size)
    }
}

/// The arguments of a call of the machine code, as plain numbers.
#[derive(Debug, Clone, Copy, PartialEq, Eq, Structural)]
pub struct JitCall {
    /// The length of the subject, in bytes.
    pub subject_len: u64,
    /// The number of registers to write: two for each span of the caller.
    pub result_len: u64,
    /// Where the search starts.
    pub from: u64,
    /// Where the search ends.
    pub to: u64,
    /// 1 when the search may stop at the first match found, else 0.
    pub first_match: u64,
    /// The character that ends where the search starts.
    pub prev_char: Char,
}

/// Returns the arguments of a call of the machine code for `input`, when
/// the caller has room for `result_len` spans; `None` when the input is not
/// valid, or when the spans have more registers than can be counted.
pub fn prepare_call(input: &Input, result_len: usize, capture_count: usize) -> (r: Option<JitCall>)
    requires
        result_len <= capture_count,
    ensures
        r is Some <==> input.spec_valid() && 2 * result_len <= usize::MAX,
        r matches Some(call) ==> {
            &&& call.subject_len == input.subject.spec_bytes().len()
            &&& call.result_len == 2 * result_len
            &&& call.from == input.span.from
            &&& call.to == input.span.to
            &&& call.first_match == (if input.first_match { 1u64 } else { 0u64 })
            &&& call.prev_char == prev_char(input.subject.spec_bytes(), input.span.from as int)
        },
{
    if !input.valid() {
        return None;
    }
    let registers = match result_len.checked_mul(2) {
        Some(count) => count,
        None => {
            return None;
        },
    };
    let prev = find_prev_char(input.subject, input.span.from);
    Some(
        JitCall {
            subject_len: input.subject.as_bytes().len() as u64,
            result_len: registers as u64,
            from: input.span.from as u64,
            to: input.span.to as u64,
            first_match: if input.first_match {
                1
            } else {
                0
            },
            prev_char: prev,
        },
    )
}

} // verus!
