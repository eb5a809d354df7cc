//! Recording capture groups in a tree of writes.

use vstd::prelude::*;
use crate::thompson::pike_jit::Layout;
use crate::util::Span;

verus! {

/// The size of a node of the tree, in words: the offset of the node
/// before it, the input position, and the register.
pub const NODE_SIZE: usize = 3;

/// The way to record captures in which every write of a register adds a
/// node to a tree that only grows. The data of a thread is the offset of
/// its latest node, so that a fork copies one word and nothing is ever
/// freed. The memory it takes grows with the input.
#[derive(Debug, Clone, Copy)]
pub struct CGImplTree;

/// The spans after the write of `reg` at `pos` is read on the way back
/// from the latest write to the earliest: it counts only if the register is
/// one of the first `reg_count` and its span has no start yet.
pub open spec fn record(spans: Seq<Span>, reg: usize, pos: usize, reg_count: usize) -> Seq<Span> {
    let slot = reg as int / 2;
    if reg < reg_count && slot < spans.len() && spans[slot].from == usize::MAX {
        if reg as int % 2 == 0 {
            spans.update(slot, Span { from: pos, to: spans[slot].to })
        } else {
            spans.update(slot, Span { from: spans[slot].from, to: pos })
        }
    } else {
        spans
    }
}

/// True when `offset` stands for the end of a chain: no offset is 0 or, if
/// read as a signed number, negative.
pub open spec fn is_end(offset: usize) -> bool {
    offset == 0 || offset > usize::MAX / 2
}

/// True when `offset` is the offset in bytes of a node in `mem` that is
/// the first of its chain or comes after a node that lies before it.
pub open spec fn is_node(mem: Seq<usize>, offset: usize) -> bool {
    &&& !is_end(offset)
    &&& offset as int / 8 + 2 < mem.len()
    &&& (mem[offset as int / 8] < offset || is_end(mem[offset as int / 8]))
}

/// The spans after the chain of nodes that ends at `offset` is read, the
/// latest write first, and the value at which the chain stops.
pub open spec fn walk(mem: Seq<usize>, offset: usize, reg_count: usize, spans: Seq<Span>) -> (Seq<Span>, usize)
    decreases (if is_end(offset) { 0 } else { offset + 1 }),
{
    if is_node(mem, offset) {
        let at = offset as int / 8;
        walk(mem, mem[at], reg_count, record(spans, mem[at + 2], mem[at + 1], reg_count))
    } else {
        (spans, offset)
    }
}

/// The spans with those of the groups `1..reg_count / 2` invalid.
pub open spec fn cleared(spans: Seq<Span>, reg_count: usize) -> Seq<Span> {
    Seq::new(
        spans.len(),
        |i: int| if 1 <= i < reg_count as int / 2 {
            Span::spec_invalid()
        } else {
            spans[i]
        },
    )
}

/// The position that the end of a chain stands for: the end holds the start
/// of the overall match, negated.
pub open spec fn start_of(end: usize) -> usize {
    if end == 0 {
        0
    } else {
        (usize::MAX - end + 1) as usize
    }
}

/// What `write_results` leaves in the spans.
pub open spec fn results(
    spans: Seq<Span>,
    reg_count: usize,
    offset: usize,
    mem: Seq<usize>,
    cg0_to: usize,
) -> Seq<Span> {
    let found = walk(mem, offset, reg_count, cleared(spans, reg_count));
    found.0.update(0, Span { from: start_of(found.1), to: cg0_to })
}

impl CGImplTree {
    /// The memory that the capture groups ask for at the start, in words:
    /// room for four nodes for each instruction that writes a register.
    /// `None` when it cannot be counted.
    pub fn init_mem_size(layout: &Layout) -> (r: Option<usize>)
        ensures
            r == (if layout.write_reg_count * 3 * 4 <= usize::MAX {
                Some((layout.write_reg_count * 3 * 4) as usize)
            } else {
                None
            }),
    {
        match layout.write_reg_count.checked_mul(NODE_SIZE) {
            Some(nodes) => nodes.checked_mul(4),
            None => None,
        }
    }

    /// Reads the spans of the winning thread out of the tree.
    ///
    /// `offset` is the data of the winning thread: the offset in bytes of
    /// its latest node in `mem`. The chain of nodes is walked back from
    /// there, and each register takes the first write that is met, which is
    /// the latest that was made. The walk stops at what is no node: there
    /// stands the start of the overall match, negated. The overall match
    /// ends at `cg0_to`.
    pub fn write_results(spans: &mut [Span], reg_count: usize, offset: usize, mem: &[usize], cg0_to: usize)
        requires
            old(spans)@.len() >= 1,
            reg_count / 2 <= old(spans)@.len(),
        ensures
            final(spans)@ == results(old(spans)@, reg_count, offset, mem@, cg0_to),
    {
        let mut i: usize = 1;
        while i < reg_count / 2
            invariant
                1 <= i,
                i <= reg_count / 2 || i == 1,
                reg_count / 2 <= spans@.len(),
                spans@.len() == old(spans)@.len(),
                forall|k: int| 1 <= k < i ==> #[trigger] spans@[k] == Span::spec_invalid(),
                forall|k: int| 0 <= k < spans@.len() && !(1 <= k < i) ==> #[trigger] spans@[k] == old(spans)@[k],
            decreases reg_count / 2 - i,
        {
            spans[i] = Span::invalid();
            i += 1;
        }
        assert(spans@ =~= cleared(old(spans)@, reg_count));
        let ghost start = spans@;
        let mut offset = offset;
        let ghost first = offset;
        loop
            invariant
                spans@.len() == old(spans)@.len(),
                walk(mem@, first, reg_count, start) == walk(mem@, offset, reg_count, spans@),
            ensures
                spans@.len() == old(spans)@.len(),
                walk(mem@, first, reg_count, start) == (spans@, offset),
            decreases (if is_end(offset) { 0 } else { offset + 1 }),
        {
            if offset == 0 || offset > usize::MAX / 2 {
                break;
            }
            let at = offset / 8;
            if at >= mem.len() || mem.len() - at <= 2 {
                break;
            }
            let prev = mem[at];
            if prev >= offset && prev <= usize::MAX / 2 {
                break;
            }
            let pos = mem[at + 1];
            let reg = mem[at + 2];
            let slot = reg / 2;
            if reg < reg_count && slot < spans.len() {
                let span = spans[slot];
                if span.from == usize::MAX {
                    if reg % 2 == 0 {
                        spans[slot] = Span { from: pos, to: span.to };
                    } else {
                        spans[slot] = Span { from: span.from, to: pos };
                    }
                }
            }
            offset = prev;
        }
        let from = if offset == 0 {
            0
        } else {
            usize::MAX - offset + 1
        };
        spans[0] = Span { from, to: cg0_to };
    }
}

} // verus!
