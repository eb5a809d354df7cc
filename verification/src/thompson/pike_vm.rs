//! An interpreter for the bytecode: a Pike-style virtual machine.
//!
//! The machine simulates the automaton on every path at once. A thread is a
//! program counter with the capture registers of its path. Two queues hold
//! the threads: `active` those that still have to run at the current input
//! position, `next` those that consumed the current character. A thread is
//! admitted at most once for each program counter and input position, which
//! bounds the work at every position by the size of the bytecode.

use vstd::prelude::*;
use vstd::utf8::*;
use vstd::string::StringSliceAdditionalSpecFns;
use std::collections::VecDeque;
use crate::scan::{char_at, char_or_bound, decode_char, lemma_boundary_gap, lemma_boundary_step, prev_char, scalar_at, width_at};
use crate::regex::{BuildError, Config};
use crate::thompson::ast::{in_class, in_range, ranges_sorted, Anchor, Ast};
use crate::thompson::bytecode::{
    compile_ast, compile_spec, groups_of, Bytecode, Instr, Instruction, Program,
};
use crate::thompson::syntax::{parse_pattern, parsed};
use crate::util::{find_prev_char, Char, Input, Span};

verus! {

/// A thread of the simulation: where it stands in the bytecode, and the
/// spans that its path has recorded.
pub struct ThreadModel {
    pub pc: usize,
    pub caps: Seq<Span>,
}

/// The state of the simulation at one input position.
pub struct Sim {
    /// The threads still to run at this position; the first runs first.
    pub active: Seq<ThreadModel>,
    /// The threads that consumed the current character, in order of
    /// preference.
    pub next: Seq<ThreadModel>,
    /// The program counters admitted at this position.
    pub visited: Set<usize>,
    /// The spans of the best match found so far.
    pub best: Option<Seq<Span>>,
    /// The input position.
    pub pos: usize,
}

/// What running one thread until it stops does to the state.
pub struct Outcome {
    /// The threads that the forks on the way left behind: the latest first.
    pub spawned: Seq<ThreadModel>,
    /// The thread that consumed the current character, if it did.
    pub next: Option<ThreadModel>,
    /// The spans of the match, if the thread reached `Accept`.
    pub accepted: Option<Seq<Span>>,
}

/// The spans of a thread that has recorded nothing.
pub open spec fn blank(width: nat) -> Seq<Span> {
    Seq::new(width, |i: int| Span::spec_invalid())
}

/// The spans after register `reg` takes the position `pos`. Register `2k`
/// is the start of group `k` and register `2k + 1` its end; a register
/// beyond the spans that the caller asked for is not recorded.
pub open spec fn write_reg(caps: Seq<Span>, reg: usize, pos: usize) -> Seq<Span> {
    let slot = reg as int / 2;
    if slot >= caps.len() {
        caps
    } else if reg as int % 2 == 0 {
        caps.update(slot, Span { from: pos, to: caps[slot].to })
    } else {
        caps.update(slot, Span { from: caps[slot].from, to: pos })
    }
}

/// What a search through the ranges from index `from` on finds that tries
/// them in order and stops at the first range that starts after `c`. On
/// sorted ranges it finds `c` exactly if `c` lies in one of them.
pub open spec fn class_matches(ranges: Seq<(Char, Char)>, c: Char, from: int) -> bool
    decreases ranges.len() - from,
{
    if from < 0 || from >= ranges.len() {
        false
    } else if c.0 < ranges[from].0.0 {
        false
    } else if c.0 > ranges[from].1.0 {
        class_matches(ranges, c, from + 1)
    } else {
        true
    }
}

/// On sorted ranges the search that stops early finds exactly the
/// characters that lie in one of the ranges.
pub proof fn lemma_class_matches_sorted(ranges: Seq<(Char, Char)>, c: Char, from: int)
    requires
        ranges_sorted(ranges),
        0 <= from,
    ensures
        class_matches(ranges, c, from) <==> exists|k: int| from <= k && in_range(ranges, k, c),
        from == 0 ==> class_matches(ranges, c, 0) == in_class(ranges, c),
    decreases ranges.len() - from,
{
    if from >= ranges.len() {
    } else if c.0 < ranges[from].0.0 {
        assert forall|k: int| from <= k && in_range(ranges, k, c) implies false by {
            if k > from {
                assert(ranges[from].1.0 < ranges[k].0.0);
            }
        }
    } else if c.0 > ranges[from].1.0 {
        lemma_class_matches_sorted(ranges, c, from + 1);
        if class_matches(ranges, c, from + 1) {
            let k = choose|k: int| from + 1 <= k && in_range(ranges, k, c);
            assert(from <= k && in_range(ranges, k, c));
        }
        if exists|k: int| from <= k && in_range(ranges, k, c) {
            let k = choose|k: int| from <= k && in_range(ranges, k, c);
            assert(from + 1 <= k && in_range(ranges, k, c));
        }
    } else {
        assert(in_range(ranges, from, c));
    }
    if from == 0 && in_class(ranges, c) {
        let k = choose|k: int| in_range(ranges, k, c);
        assert(0 <= k && in_range(ranges, k, c));
    }
}

/// True when the assertion holds between the characters `prev` and `c`.
pub open spec fn look_holds(look: Anchor, prev: Char, c: Char) -> bool {
    let bound = Char::spec_input_bound();
    let lf = Char(0x0A);
    let cr = Char(0x0D);
    match look {
        Anchor::Start => prev == bound,
        Anchor::End => c == bound,
        Anchor::StartLF => prev == bound || prev == lf,
        Anchor::EndLF => c == bound || c == lf,
        Anchor::StartCRLF => prev == bound || prev == lf || (prev == cr && c != lf),
        Anchor::EndCRLF => c == bound || c == cr || (c == lf && prev != cr),
    }
}

impl ThreadModel {
    /// A thread at the start of the bytecode whose match starts at `start`.
    pub open spec fn fresh(start: usize, width: nat) -> ThreadModel {
        ThreadModel { pc: 0, caps: write_reg(blank(width), 0, start) }
    }

    /// The same thread at another program counter.
    pub open spec fn at(self, pc: usize) -> ThreadModel {
        ThreadModel { pc, caps: self.caps }
    }

    /// The same thread at the next instruction.
    pub open spec fn step(self) -> ThreadModel {
        ThreadModel { pc: (self.pc + 1) as usize, caps: self.caps }
    }

    /// The copies of the thread that a fork leaves behind: one for each
    /// target but the first, in the order of the targets.
    pub open spec fn forked(self, targets: Seq<usize>) -> Seq<ThreadModel> {
        Seq::new((targets.len() - 1) as nat, |k: int| self.at(targets[k + 1]))
    }
}

impl Outcome {
    /// The thread died: nothing changes.
    pub open spec fn none() -> Outcome {
        Outcome { spawned: Seq::empty(), next: None, accepted: None }
    }

    /// The thread consumed the current character.
    pub open spec fn consumed(t: ThreadModel) -> Outcome {
        Outcome { spawned: Seq::empty(), next: Some(t), accepted: None }
    }

    /// The thread reached `Accept` with these spans.
    pub open spec fn accept(caps: Seq<Span>) -> Outcome {
        Outcome { spawned: Seq::empty(), next: None, accepted: Some(caps) }
    }

    /// The same outcome after an earlier fork left `extra` behind.
    pub open spec fn after_fork(self, extra: Seq<ThreadModel>) -> Outcome {
        Outcome { spawned: self.spawned + extra, ..self }
    }
}

/// Runs one thread until it consumes the current character, dies or
/// accepts. It follows the first target of every fork and leaves a copy of
/// itself for each of the others. It executes at most `fuel` instructions:
/// a thread that would go round a cycle of the bytecode without consuming
/// anything is dropped.
pub open spec fn run(prog: Program, t: ThreadModel, fuel: nat, prev: Char, c: Char, pos: usize) -> Outcome
    decreases fuel,
{
    if fuel == 0 || t.pc >= prog.len() {
        Outcome::none()
    } else {
        let rest = (fuel - 1) as nat;
        match prog.instructions[t.pc as int] {
            Instr::Consume(expected) => if expected == c {
                Outcome::consumed(t.step())
            } else {
                Outcome::none()
            },
            Instr::ConsumeAny => Outcome::consumed(t.step()),
            Instr::ConsumeClass(ranges) => if in_class(ranges, c) {
                Outcome::consumed(t.step())
            } else {
                Outcome::none()
            },
            Instr::ConsumeOutlined(id) => if id < prog.outlined_classes.len() && in_class(
                prog.outlined_classes[id as int],
                c,
            ) {
                Outcome::consumed(t.step())
            } else {
                Outcome::none()
            },
            Instr::Fork2(a, b) => run(prog, t.at(a), rest, prev, c, pos).after_fork(seq![t.at(b)]),
            Instr::ForkN(targets) => if targets.len() == 0 {
                Outcome::none()
            } else {
                run(prog, t.at(targets[0]), rest, prev, c, pos).after_fork(t.forked(targets))
            },
            Instr::Jmp(target) => run(prog, t.at(target), rest, prev, c, pos),
            Instr::WriteReg(r) => run(
                prog,
                ThreadModel { pc: (t.pc + 1) as usize, caps: write_reg(t.caps, r as usize, pos) },
                rest,
                prev,
                c,
                pos,
            ),
            Instr::Assertion(look) => if look_holds(look, prev, c) {
                run(prog, t.step(), rest, prev, c, pos)
            } else {
                Outcome::none()
            },
            Instr::Accept => Outcome::accept(write_reg(t.caps, 1, pos)),
        }
    }
}

impl Sim {
    /// The state after one thread ran: a thread that accepts becomes the
    /// best match and every thread that is less preferred is dropped;
    /// else the threads it left behind run next, before those that were
    /// waiting, and the thread itself goes to the back of `next` if it
    /// consumed the current character.
    pub open spec fn apply(self, o: Outcome) -> Sim {
        match o.accepted {
            Some(caps) => Sim { active: Seq::empty(), best: Some(caps), ..self },
            None => Sim {
                active: o.spawned + self.active,
                next: match o.next {
                    Some(t) => self.next.push(t),
                    None => self.next,
                },
                ..self
            },
        }
    }

    /// The state without the threads at the front of `active` whose program
    /// counter was admitted already at this position.
    pub open spec fn skip_visited(self, n: nat) -> Sim
        decreases self.active.len(),
    {
        if self.active.len() > 0 && (self.active[0].pc >= n || self.visited.contains(
            self.active[0].pc,
        )) {
            Sim { active: self.active.drop_first(), ..self }.skip_visited(n)
        } else {
            self
        }
    }

    /// The state after the first thread of `active` is admitted.
    pub open spec fn admit_first(self) -> Sim {
        Sim {
            active: self.active.drop_first(),
            visited: self.visited.insert(self.active[0].pc),
            ..self
        }
    }

    /// The state at the next input position: the threads that consumed
    /// the character are the ones to run there, and no program counter is
    /// admitted yet.
    pub open spec fn advance(self, pos: usize) -> Sim {
        Sim { active: self.next, next: self.active, visited: Set::empty(), pos, ..self }
    }

    /// The state with a new thread at the start of the bytecode behind the
    /// threads of `next`: a match may start at `start`.
    pub open spec fn seed(self, start: usize, width: nat) -> Sim {
        Sim { next: self.next.push(ThreadModel::fresh(start, width)), ..self }
    }

    /// The state in which a search starts at `from`: one thread at the
    /// start of the bytecode.
    pub open spec fn initial(from: usize, width: nat) -> Sim {
        Sim {
            active: seq![ThreadModel::fresh(from, width)],
            next: Seq::empty(),
            visited: Set::empty(),
            best: None,
            pos: from,
        }
    }
}

/// The number of program counters below `n` that are not in `visited`.
pub open spec fn unvisited(n: nat, visited: Set<usize>) -> nat
    decreases n,
{
    if n == 0 {
        0
    } else if visited.contains((n - 1) as usize) {
        unvisited((n - 1) as nat, visited)
    } else {
        unvisited((n - 1) as nat, visited) + 1
    }
}

/// Admitting a program counter that is not below `n` leaves the count.
pub proof fn lemma_unvisited_above(n: nat, visited: Set<usize>, pc: usize)
    requires
        pc >= n,
    ensures
        unvisited(n, visited.insert(pc)) == unvisited(n, visited),
    decreases n,
{
    if n > 0 {
        lemma_unvisited_above((n - 1) as nat, visited, pc);
    }
}

/// Admitting a new program counter below `n` takes one from the count.
pub proof fn lemma_unvisited_insert(n: nat, visited: Set<usize>, pc: usize)
    requires
        pc < n <= usize::MAX,
        !visited.contains(pc),
    ensures
        unvisited(n, visited.insert(pc)) + 1 == unvisited(n, visited),
    decreases n,
{
    if pc == n - 1 {
        lemma_unvisited_above((n - 1) as nat, visited, pc);
    } else {
        lemma_unvisited_insert((n - 1) as nat, visited, pc);
    }
}

/// Skipping threads changes nothing but `active`, and the thread that is
/// then first, if any, can be admitted.
pub proof fn lemma_skip_visited(s: Sim, n: nat)
    ensures
        s.skip_visited(n).visited == s.visited,
        s.skip_visited(n).next == s.next,
        s.skip_visited(n).best == s.best,
        s.skip_visited(n).pos == s.pos,
        s.skip_visited(n).active.len() <= s.active.len(),
        s.skip_visited(n).active.len() > 0 ==> {
            &&& s.skip_visited(n).active[0].pc < n
            &&& !s.visited.contains(s.skip_visited(n).active[0].pc)
        },
    decreases s.active.len(),
{
    if s.active.len() > 0 && (s.active[0].pc >= n || s.visited.contains(s.active[0].pc)) {
        lemma_skip_visited(Sim { active: s.active.drop_first(), ..s }, n);
    }
}

/// One step of the simulation at one input position: the threads of
/// `active` run in order until none is left. A thread runs only if its
/// program counter was not admitted before at this position.
pub open spec fn step(prog: Program, s: Sim, prev: Char, c: Char) -> Sim
    decreases unvisited(prog.len(), s.visited),
{
    let ready = s.skip_visited(prog.len());
    if ready.active.len() == 0 || prog.len() > usize::MAX {
        ready
    } else {
        proof {
            lemma_skip_visited(s, prog.len());
            lemma_unvisited_insert(prog.len(), s.visited, ready.active[0].pc);
        }
        step(
            prog,
            ready.admit_first().apply(
                run(prog, ready.active[0], prog.len(), prev, c, s.pos),
            ),
            prev,
            c,
        )
    }
}

/// The program counters that a step admits, in the order in which their
/// threads run.
pub open spec fn admitted(prog: Program, s: Sim, prev: Char, c: Char) -> Seq<usize>
    decreases unvisited(prog.len(), s.visited),
{
    let ready = s.skip_visited(prog.len());
    if ready.active.len() == 0 || prog.len() > usize::MAX {
        Seq::empty()
    } else {
        proof {
            lemma_skip_visited(s, prog.len());
            lemma_unvisited_insert(prog.len(), s.visited, ready.active[0].pc);
        }
        seq![ready.active[0].pc] + admitted(
            prog,
            ready.admit_first().apply(run(prog, ready.active[0], prog.len(), prev, c, s.pos)),
            prev,
            c,
        )
    }
}

/// At one input position every program counter is admitted at most once:
/// a step runs no more threads than there are instructions that were not
/// admitted before, each at an instruction of its own.
pub proof fn lemma_admitted_once(prog: Program, s: Sim, prev: Char, c: Char)
    ensures
        admitted(prog, s, prev, c).len() <= unvisited(prog.len(), s.visited) <= prog.len(),
        admitted(prog, s, prev, c).no_duplicates(),
        forall|i: int|
            0 <= i < admitted(prog, s, prev, c).len() ==> {
                &&& (#[trigger] admitted(prog, s, prev, c)[i]) < prog.len()
                &&& !s.visited.contains(admitted(prog, s, prev, c)[i])
            },
    decreases unvisited(prog.len(), s.visited),
{
    lemma_unvisited_bound(prog.len(), s.visited);
    let ready = s.skip_visited(prog.len());
    lemma_skip_visited(s, prog.len());
    if ready.active.len() == 0 || prog.len() > usize::MAX {
    } else {
        let pc = ready.active[0].pc;
        lemma_unvisited_insert(prog.len(), s.visited, pc);
        let after = ready.admit_first().apply(run(prog, ready.active[0], prog.len(), prev, c, s.pos));
        assert(after.visited == s.visited.insert(pc));
        lemma_admitted_once(prog, after, prev, c);
        let rest = admitted(prog, after, prev, c);
        let all = admitted(prog, s, prev, c);
        assert(all == seq![pc] + rest);
        assert forall|i: int| 0 <= i < all.len() implies {
            &&& (#[trigger] all[i]) < prog.len()
            &&& !s.visited.contains(all[i])
        } by {
            if i > 0 {
                assert(all[i] == rest[i - 1]);
                assert(!after.visited.contains(rest[i - 1]));
            }
        }
        assert forall|i: int, j: int| 0 <= i < all.len() && 0 <= j < all.len() && i != j implies all[i]
            != all[j] by {
            if i > 0 {
                assert(all[i] == rest[i - 1]);
                assert(!after.visited.contains(rest[i - 1]));
            }
            if j > 0 {
                assert(all[j] == rest[j - 1]);
                assert(!after.visited.contains(rest[j - 1]));
            }
        }
    }
}

/// No more program counters below `n` are left than there are.
pub proof fn lemma_unvisited_bound(n: nat, visited: Set<usize>)
    ensures
        unvisited(n, visited) <= n,
    decreases n,
{
    if n > 0 {
        lemma_unvisited_bound((n - 1) as nat, visited);
    }
}

/// The search from the state `s` on: the character at each position in
/// turn is given to `step`.
///
/// After a step with a match the search ends if no thread is left, or at
/// once if any match will do; else only the threads that are preferred to
/// the match go on. After a step without a match an unanchored search adds
/// a thread that starts at the next position, and an anchored search goes
/// on with the threads that are left, or ends when none is left. At the end of the span one last step sees the
/// character after the span, or the sentinel at the end of the text.
pub open spec fn search(
    prog: Program,
    bytes: Seq<u8>,
    to: usize,
    anchored: bool,
    first_match: bool,
    width: nat,
    s: Sim,
    prev: Char,
) -> Option<Seq<Span>>
    decreases to - s.pos,
{
    if s.pos < to && scalar_at(bytes, s.pos as int) && s.pos + width_at(bytes, s.pos as int) <= to {
        let c = char_at(bytes, s.pos as int);
        let w = width_at(bytes, s.pos as int) as usize;
        let after = step(prog, s, prev, c);
        if after.best is Some {
            if first_match || after.next.len() == 0 {
                after.best
            } else {
                search(
                    prog,
                    bytes,
                    to,
                    anchored,
                    first_match,
                    width,
                    after.advance((s.pos + w) as usize),
                    c,
                )
            }
        } else if !anchored {
            search(
                prog,
                bytes,
                to,
                anchored,
                first_match,
                width,
                after.seed((s.pos + w) as usize, width).advance((s.pos + w) as usize),
                c,
            )
        } else if after.next.len() == 0 {
            None
        } else {
            search(prog, bytes, to, anchored, first_match, width, after.advance((s.pos + w) as usize), c)
        }
    } else {
        step(prog, s, prev, char_or_bound(bytes, to as int)).best
    }
}

/// What a search returns: the spans of the match, or `None` when there is
/// no match or the input is not valid.
pub open spec fn find(prog: Program, input: Input, width: nat) -> Option<Seq<Span>> {
    if input.spec_valid() {
        search(
            prog,
            input.subject.spec_bytes(),
            input.span.to,
            input.anchored,
            input.first_match,
            width,
            Sim::initial(input.span.from, width),
            prev_char(input.subject.spec_bytes(), input.span.from as int),
        )
    } else {
        None
    }
}

/// The spans of the caller after a match is written to them: the first
/// `count` of them come from the match.
pub open spec fn written(before: Seq<Span>, caps: Seq<Span>, count: nat) -> Seq<Span> {
    Seq::new(
        before.len(),
        |i: int| if i < count && i < caps.len() {
            caps[i]
        } else {
            before[i]
        },
    )
}

/// True when the thread records `width` spans and, if it records any, its
/// match starts at a character boundary between `lo` and `hi`.
pub open spec fn thread_sound(t: ThreadModel, bytes: Seq<u8>, lo: usize, hi: usize, width: nat) -> bool {
    &&& t.caps.len() == width
    &&& width > 0 ==> {
        &&& lo <= t.caps[0].from <= hi
        &&& is_char_boundary(bytes, t.caps[0].from as int)
    }
}

/// True when every thread of `ts` is sound.
pub open spec fn threads_sound(ts: Seq<ThreadModel>, bytes: Seq<u8>, lo: usize, hi: usize, width: nat) -> bool {
    forall|i: int| 0 <= i < ts.len() ==> thread_sound(#[trigger] ts[i], bytes, lo, hi, width)
}

/// True when there are `width` spans and, if there are any, the first is a
/// valid span between `lo` and `hi` whose two ends are character
/// boundaries.
pub open spec fn spans_sound(caps: Seq<Span>, bytes: Seq<u8>, lo: usize, hi: usize, width: nat) -> bool {
    &&& caps.len() == width
    &&& width > 0 ==> {
        &&& lo <= caps[0].from <= caps[0].to <= hi
        &&& is_char_boundary(bytes, caps[0].from as int)
        &&& is_char_boundary(bytes, caps[0].to as int)
    }
}

/// True when the state stands at a character boundary at or after `lo` and
/// every thread and the best match in it are sound.
pub open spec fn sim_sound(s: Sim, bytes: Seq<u8>, lo: usize, width: nat) -> bool {
    &&& lo <= s.pos
    &&& is_char_boundary(bytes, s.pos as int)
    &&& threads_sound(s.active, bytes, lo, s.pos, width)
    &&& threads_sound(s.next, bytes, lo, s.pos, width)
    &&& (s.best matches Some(caps) ==> spans_sound(caps, bytes, lo, s.pos, width))
}

/// Running a sound thread at a character boundary leaves sound threads
/// only, and a match that it finds is sound.
pub proof fn lemma_run_sound(
    prog: Program,
    t: ThreadModel,
    fuel: nat,
    prev: Char,
    c: Char,
    pos: usize,
    bytes: Seq<u8>,
    lo: usize,
    width: nat,
)
    requires
        thread_sound(t, bytes, lo, pos, width),
        lo <= pos,
        is_char_boundary(bytes, pos as int),
    ensures
        threads_sound(run(prog, t, fuel, prev, c, pos).spawned, bytes, lo, pos, width),
        run(prog, t, fuel, prev, c, pos).next matches Some(moved) ==> thread_sound(
            moved,
            bytes,
            lo,
            pos,
            width,
        ),
        run(prog, t, fuel, prev, c, pos).accepted matches Some(caps) ==> spans_sound(
            caps,
            bytes,
            lo,
            pos,
            width,
        ),
    decreases fuel,
{
    if fuel == 0 || t.pc >= prog.len() {
    } else {
        let rest = (fuel - 1) as nat;
        match prog.instructions[t.pc as int] {
            Instr::Fork2(a, b) => {
                lemma_run_sound(prog, t.at(a), rest, prev, c, pos, bytes, lo, width);
            },
            Instr::ForkN(targets) => {
                if targets.len() > 0 {
                    lemma_run_sound(prog, t.at(targets[0]), rest, prev, c, pos, bytes, lo, width);
                }
            },
            Instr::Jmp(target) => {
                lemma_run_sound(prog, t.at(target), rest, prev, c, pos, bytes, lo, width);
            },
            Instr::WriteReg(r) => {
                let moved = ThreadModel {
                    pc: (t.pc + 1) as usize,
                    caps: write_reg(t.caps, r as usize, pos),
                };
                lemma_run_sound(prog, moved, rest, prev, c, pos, bytes, lo, width);
            },
            Instr::Assertion(look) => {
                if look_holds(look, prev, c) {
                    lemma_run_sound(prog, t.step(), rest, prev, c, pos, bytes, lo, width);
                }
            },
            _ => {},
        }
    }
}

/// A step keeps the position and keeps the state sound.
pub proof fn lemma_step_sound(prog: Program, s: Sim, prev: Char, c: Char, bytes: Seq<u8>, lo: usize, width: nat)
    requires
        sim_sound(s, bytes, lo, width),
    ensures
        sim_sound(step(prog, s, prev, c), bytes, lo, width),
        step(prog, s, prev, c).pos == s.pos,
    decreases unvisited(prog.len(), s.visited),
{
    let ready = s.skip_visited(prog.len());
    lemma_skip_visited(s, prog.len());
    lemma_skip_sound(s, prog.len(), bytes, lo, width);
    if ready.active.len() == 0 || prog.len() > usize::MAX {
    } else {
        let t = ready.active[0];
        lemma_unvisited_insert(prog.len(), s.visited, t.pc);
        lemma_run_sound(prog, t, prog.len(), prev, c, s.pos, bytes, lo, width);
        let o = run(prog, t, prog.len(), prev, c, s.pos);
        let after = ready.admit_first().apply(o);
        assert(sim_sound(after, bytes, lo, width)) by {
            assert(threads_sound(ready.active.drop_first(), bytes, lo, s.pos, width));
        }
        lemma_step_sound(prog, after, prev, c, bytes, lo, width);
    }
}

/// Skipping threads keeps the state sound.
pub proof fn lemma_skip_sound(s: Sim, n: nat, bytes: Seq<u8>, lo: usize, width: nat)
    requires
        sim_sound(s, bytes, lo, width),
    ensures
        sim_sound(s.skip_visited(n), bytes, lo, width),
    decreases s.active.len(),
{
    if s.active.len() > 0 && (s.active[0].pc >= n || s.visited.contains(s.active[0].pc)) {
        let rest = Sim { active: s.active.drop_first(), ..s };
        assert(threads_sound(rest.active, bytes, lo, s.pos, width));
        lemma_skip_sound(rest, n, bytes, lo, width);
    }
}

/// A match that a search from a sound state reports is sound: it lies
/// between `lo` and the end of the span, and its two ends are character
/// boundaries.
pub proof fn lemma_search_sound(
    prog: Program,
    bytes: Seq<u8>,
    to: usize,
    anchored: bool,
    first_match: bool,
    width: nat,
    s: Sim,
    prev: Char,
    lo: usize,
)
    requires
        valid_utf8(bytes),
        is_char_boundary(bytes, to as int),
        s.pos <= to <= bytes.len(),
        sim_sound(s, bytes, lo, width),
    ensures
        search(prog, bytes, to, anchored, first_match, width, s, prev) matches Some(caps)
            ==> spans_sound(caps, bytes, lo, to, width),
    decreases to - s.pos,
{
    if s.pos < to && scalar_at(bytes, s.pos as int) && s.pos + width_at(bytes, s.pos as int) <= to {
        let c = char_at(bytes, s.pos as int);
        let w = width_at(bytes, s.pos as int) as usize;
        let after = step(prog, s, prev, c);
        lemma_step_sound(prog, s, prev, c, bytes, lo, width);
        lemma_boundary_step(bytes, s.pos as int);
        let there = (s.pos + w) as usize;
        if after.best is Some {
            if first_match || after.next.len() == 0 {
            } else {
                let moved = after.advance(there);
                assert(sim_sound(moved, bytes, lo, width));
                lemma_search_sound(prog, bytes, to, anchored, first_match, width, moved, c, lo);
            }
        } else if !anchored {
            let seeded = after.seed(there, width);
            let moved = seeded.advance(there);
            assert(thread_sound(ThreadModel::fresh(there, width), bytes, lo, there, width));
            assert(sim_sound(moved, bytes, lo, width));
            lemma_search_sound(prog, bytes, to, anchored, first_match, width, moved, c, lo);
        } else if after.next.len() > 0 {
            let moved = after.advance(there);
            assert(sim_sound(moved, bytes, lo, width));
            lemma_search_sound(prog, bytes, to, anchored, first_match, width, moved, c, lo);
        }
    } else {
        lemma_step_sound(prog, s, prev, char_or_bound(bytes, to as int), bytes, lo, width);
    }
}

/// A match is a valid span inside the span of the input, and its two ends
/// are character boundaries of the subject.
pub proof fn lemma_find_sound(prog: Program, input: Input, width: nat)
    ensures
        find(prog, input, width) matches Some(caps) ==> spans_sound(
            caps,
            input.subject.spec_bytes(),
            input.span.from,
            input.span.to,
            width,
        ),
{
    if input.spec_valid() {
        let bytes = input.subject.spec_bytes();
        encode_utf8_valid_utf8(input.subject@);
        if input.span.to > bytes.len() {
            assert(!is_char_boundary(bytes, input.span.to as int));
        }
        let start = Sim::initial(input.span.from, width);
        assert(thread_sound(
            ThreadModel::fresh(input.span.from, width),
            bytes,
            input.span.from,
            input.span.from,
            width,
        ));
        assert(sim_sound(start, bytes, input.span.from, width));
        lemma_search_sound(
            prog,
            bytes,
            input.span.to,
            input.anchored,
            input.first_match,
            width,
            start,
            prev_char(bytes, input.span.from as int),
            input.span.from,
        );
    }
}

/// True when the two lists of spans have the same first `k` spans.
pub open spec fn same_prefix(a: Seq<Span>, b: Seq<Span>, k: nat) -> bool {
    a.len() >= k && b.len() >= k && forall|i: int| 0 <= i < k ==> #[trigger] a[i] == #[trigger] b[i]
}

/// True when the two threads stand at the same program counter and have
/// recorded the same first `k` spans.
pub open spec fn alike(a: ThreadModel, b: ThreadModel, k: nat) -> bool {
    a.pc == b.pc && same_prefix(a.caps, b.caps, k)
}

/// True when the two lists hold threads that are alike, in the same order.
pub open spec fn all_alike(a: Seq<ThreadModel>, b: Seq<ThreadModel>, k: nat) -> bool {
    a.len() == b.len() && forall|i: int| 0 <= i < a.len() ==> alike(#[trigger] a[i], #[trigger] b[i], k)
}

/// True when both are a match with the same first `k` spans, or both are
/// none.
pub open spec fn same_match(a: Option<Seq<Span>>, b: Option<Seq<Span>>, k: nat) -> bool {
    a is Some == b is Some && (a is Some ==> same_prefix(a->0, b->0, k))
}

/// True when the two states differ at most in the spans behind the first
/// `k` that their threads and their best matches have recorded.
pub open spec fn same_shape(a: Sim, b: Sim, k: nat) -> bool {
    &&& all_alike(a.active, b.active, k)
    &&& all_alike(a.next, b.next, k)
    &&& a.visited == b.visited
    &&& same_match(a.best, b.best, k)
    &&& a.pos == b.pos
}

/// True when the two outcomes differ at most in the spans behind the first
/// `k`.
pub open spec fn same_outcome(a: Outcome, b: Outcome, k: nat) -> bool {
    &&& all_alike(a.spawned, b.spawned, k)
    &&& a.next is Some == b.next is Some
    &&& (a.next is Some ==> alike(a.next->0, b.next->0, k))
    &&& same_match(a.accepted, b.accepted, k)
}

/// Writing a register keeps the first `k` spans the same.
pub proof fn lemma_write_reg_prefix(a: Seq<Span>, b: Seq<Span>, k: nat, reg: usize, pos: usize)
    requires
        same_prefix(a, b, k),
    ensures
        same_prefix(write_reg(a, reg, pos), write_reg(b, reg, pos), k),
{
    let slot = reg as int / 2;
    let wa = write_reg(a, reg, pos);
    let wb = write_reg(b, reg, pos);
    assert forall|i: int| 0 <= i < k implies #[trigger] wa[i] == #[trigger] wb[i] by {
        assert(a[i] == b[i]);
    }
}

/// Where a thread goes does not depend on the spans that it has recorded,
/// and what it records in the first `k` spans depends on those alone.
pub proof fn lemma_run_shape(
    prog: Program,
    a: ThreadModel,
    b: ThreadModel,
    k: nat,
    fuel: nat,
    prev: Char,
    c: Char,
    pos: usize,
)
    requires
        alike(a, b, k),
    ensures
        same_outcome(run(prog, a, fuel, prev, c, pos), run(prog, b, fuel, prev, c, pos), k),
    decreases fuel,
{
    if fuel == 0 || a.pc >= prog.len() {
    } else {
        let rest = (fuel - 1) as nat;
        match prog.instructions[a.pc as int] {
            Instr::Fork2(x, y) => {
                lemma_run_shape(prog, a.at(x), b.at(x), k, rest, prev, c, pos);
                let oa = run(prog, a.at(x), rest, prev, c, pos);
                let ob = run(prog, b.at(x), rest, prev, c, pos);
                lemma_concat_alike(oa.spawned, ob.spawned, seq![a.at(y)], seq![b.at(y)], k);
            },
            Instr::ForkN(targets) => {
                if targets.len() > 0 {
                    lemma_run_shape(prog, a.at(targets[0]), b.at(targets[0]), k, rest, prev, c, pos);
                    let oa = run(prog, a.at(targets[0]), rest, prev, c, pos);
                    let ob = run(prog, b.at(targets[0]), rest, prev, c, pos);
                    lemma_concat_alike(oa.spawned, ob.spawned, a.forked(targets), b.forked(targets), k);
                }
            },
            Instr::Jmp(target) => {
                lemma_run_shape(prog, a.at(target), b.at(target), k, rest, prev, c, pos);
            },
            Instr::WriteReg(r) => {
                lemma_write_reg_prefix(a.caps, b.caps, k, r as usize, pos);
                lemma_run_shape(
                    prog,
                    ThreadModel { pc: (a.pc + 1) as usize, caps: write_reg(a.caps, r as usize, pos) },
                    ThreadModel { pc: (b.pc + 1) as usize, caps: write_reg(b.caps, r as usize, pos) },
                    k,
                    rest,
                    prev,
                    c,
                    pos,
                );
            },
            Instr::Assertion(look) => {
                if look_holds(look, prev, c) {
                    lemma_run_shape(prog, a.step(), b.step(), k, rest, prev, c, pos);
                }
            },
            Instr::Accept => {
                lemma_write_reg_prefix(a.caps, b.caps, k, 1, pos);
            },
            _ => {},
        }
    }
}

/// Two lists of threads that are alike, each behind a list of threads that
/// are alike, are alike.
pub proof fn lemma_concat_alike(
    a1: Seq<ThreadModel>,
    b1: Seq<ThreadModel>,
    a2: Seq<ThreadModel>,
    b2: Seq<ThreadModel>,
    k: nat,
)
    requires
        all_alike(a1, b1, k),
        all_alike(a2, b2, k),
    ensures
        all_alike(a1 + a2, b1 + b2, k),
{
    assert forall|i: int| 0 <= i < (a1 + a2).len() implies alike(#[trigger] (a1 + a2)[i], #[trigger] (b1 + b2)[i], k) by {
        if i < a1.len() {
            assert(alike(a1[i], b1[i], k));
        } else {
            assert(alike(a2[i - a1.len()], b2[i - b1.len()], k));
        }
    }
}

/// Two lists of threads that are alike are alike without their first
/// threads, and with one more thread each if the two are alike.
pub proof fn lemma_rest_alike(a: Seq<ThreadModel>, b: Seq<ThreadModel>, ta: ThreadModel, tb: ThreadModel, k: nat)
    requires
        all_alike(a, b, k),
    ensures
        a.len() > 0 ==> all_alike(a.drop_first(), b.drop_first(), k),
        alike(ta, tb, k) ==> all_alike(a.push(ta), b.push(tb), k),
{
    if a.len() > 0 {
        let da = a.drop_first();
        let db = b.drop_first();
        assert forall|i: int| 0 <= i < da.len() implies alike(#[trigger] da[i], #[trigger] db[i], k) by {
            assert(alike(a[i + 1], b[i + 1], k));
        }
    }
    if alike(ta, tb, k) {
        let pa = a.push(ta);
        let pb = b.push(tb);
        assert forall|i: int| 0 <= i < pa.len() implies alike(#[trigger] pa[i], #[trigger] pb[i], k) by {
            if i < a.len() {
                assert(alike(a[i], b[i], k));
            }
        }
    }
}

/// Which threads are skipped does not depend on the spans recorded.
pub proof fn lemma_skip_shape(a: Sim, b: Sim, k: nat, n: nat)
    requires
        same_shape(a, b, k),
    ensures
        same_shape(a.skip_visited(n), b.skip_visited(n), k),
    decreases a.active.len(),
{
    if a.active.len() > 0 {
        assert(alike(a.active[0], b.active[0], k));
        if a.active[0].pc >= n || a.visited.contains(a.active[0].pc) {
            lemma_rest_alike(a.active, b.active, a.active[0], b.active[0], k);
            lemma_skip_shape(
                Sim { active: a.active.drop_first(), ..a },
                Sim { active: b.active.drop_first(), ..b },
                k,
                n,
            );
        }
    }
}

/// A step does the same to two states that differ at most in the spans
/// behind the first `k`, and it keeps a match that was found.
pub proof fn lemma_step_shape(prog: Program, a: Sim, b: Sim, k: nat, prev: Char, c: Char)
    requires
        same_shape(a, b, k),
    ensures
        same_shape(step(prog, a, prev, c), step(prog, b, prev, c), k),
        a.best is Some ==> step(prog, a, prev, c).best is Some,
        step(prog, a, prev, c).pos == a.pos,
    decreases unvisited(prog.len(), a.visited),
{
    let ra = a.skip_visited(prog.len());
    let rb = b.skip_visited(prog.len());
    lemma_skip_visited(a, prog.len());
    lemma_skip_visited(b, prog.len());
    lemma_skip_shape(a, b, k, prog.len());
    if ra.active.len() == 0 || prog.len() > usize::MAX {
    } else {
        let ta = ra.active[0];
        let tb = rb.active[0];
        assert(alike(ta, tb, k));
        lemma_unvisited_insert(prog.len(), a.visited, ta.pc);
        lemma_run_shape(prog, ta, tb, k, prog.len(), prev, c, a.pos);
        let oa = run(prog, ta, prog.len(), prev, c, a.pos);
        let ob = run(prog, tb, prog.len(), prev, c, b.pos);
        let na = ra.admit_first().apply(oa);
        let nb = rb.admit_first().apply(ob);
        assert(same_shape(na, nb, k)) by {
            lemma_rest_alike(ra.active, rb.active, ta, tb, k);
            lemma_concat_alike(oa.spawned, ob.spawned, ra.active.drop_first(), rb.active.drop_first(), k);
            if oa.next is Some {
                lemma_rest_alike(ra.next, rb.next, oa.next->0, ob.next->0, k);
            }
        }
        lemma_step_shape(prog, na, nb, k, prev, c);
    }
}

/// Whether a search finds a match depends neither on the number of spans
/// that the threads record nor on whether any match will do; and two
/// searches that differ only in the number of spans find the same first
/// spans.
pub proof fn lemma_search_shape(
    prog: Program,
    bytes: Seq<u8>,
    to: usize,
    anchored: bool,
    first_a: bool,
    first_b: bool,
    width_a: nat,
    width_b: nat,
    k: nat,
    a: Sim,
    b: Sim,
    prev: Char,
)
    requires
        same_shape(a, b, k),
        k <= width_a,
        k <= width_b,
    ensures
        search(prog, bytes, to, anchored, first_a, width_a, a, prev) is Some <==> search(
            prog,
            bytes,
            to,
            anchored,
            first_b,
            width_b,
            b,
            prev,
        ) is Some,
        a.best is Some ==> search(prog, bytes, to, anchored, first_a, width_a, a, prev) is Some,
        first_a == first_b ==> same_match(
            search(prog, bytes, to, anchored, first_a, width_a, a, prev),
            search(prog, bytes, to, anchored, first_b, width_b, b, prev),
            k,
        ),
    decreases to - a.pos,
{
    if a.pos < to && scalar_at(bytes, a.pos as int) && a.pos + width_at(bytes, a.pos as int) <= to {
        let c = char_at(bytes, a.pos as int);
        let w = width_at(bytes, a.pos as int) as usize;
        let there = (a.pos + w) as usize;
        let sa = step(prog, a, prev, c);
        let sb = step(prog, b, prev, c);
        lemma_step_shape(prog, a, b, k, prev, c);
        lemma_step_shape(prog, b, a, k, prev, c);
        if sa.best is Some {
            let ma = sa.advance(there);
            let mb = sb.advance(there);
            lemma_search_shape(prog, bytes, to, anchored, first_a, first_b, width_a, width_b, k, ma, mb, c);
            lemma_search_shape(prog, bytes, to, anchored, first_b, first_a, width_b, width_a, k, mb, ma, c);
        } else if !anchored {
            let fa = ThreadModel::fresh(there, width_a);
            let fb = ThreadModel::fresh(there, width_b);
            assert(alike(fa, fb, k)) by {
                assert(same_prefix(blank(width_a), blank(width_b), k));
                lemma_write_reg_prefix(blank(width_a), blank(width_b), k, 0, there);
            }
            lemma_rest_alike(sa.next, sb.next, fa, fb, k);
            let ma = sa.seed(there, width_a).advance(there);
            let mb = sb.seed(there, width_b).advance(there);
            lemma_search_shape(prog, bytes, to, anchored, first_a, first_b, width_a, width_b, k, ma, mb, c);
        } else if sa.next.len() > 0 {
            let ma = sa.advance(there);
            let mb = sb.advance(there);
            lemma_search_shape(prog, bytes, to, anchored, first_a, first_b, width_a, width_b, k, ma, mb, c);
        }
    } else {
        let c = char_or_bound(bytes, to as int);
        lemma_step_shape(prog, a, b, k, prev, c);
    }
}

/// The two states in which a search starts differ at most in the spans
/// behind the first `k`.
pub proof fn lemma_initial_shape(from: usize, width_a: nat, width_b: nat, k: nat)
    requires
        k <= width_a,
        k <= width_b,
    ensures
        same_shape(Sim::initial(from, width_a), Sim::initial(from, width_b), k),
{
    assert(same_prefix(blank(width_a), blank(width_b), k));
    lemma_write_reg_prefix(blank(width_a), blank(width_b), k, 0, from);
    assert(alike(ThreadModel::fresh(from, width_a), ThreadModel::fresh(from, width_b), k));
}

/// A search that may stop at the first match, without any span to record,
/// finds a match exactly if the full search finds one: `is_match` tells
/// whether `find` finds a match.
pub proof fn lemma_is_match_iff_find(prog: Program, input: Input, width: nat)
    ensures
        find(prog, Input { first_match: true, ..input }, 0) is Some <==> find(prog, input, width) is Some,
{
    let quick = Input { first_match: true, ..input };
    if input.spec_valid() {
        assert(quick.spec_valid());
        lemma_initial_shape(input.span.from, 0, width, 0);
        lemma_search_shape(
            prog,
            input.subject.spec_bytes(),
            input.span.to,
            input.anchored,
            true,
            input.first_match,
            0,
            width,
            0,
            Sim::initial(input.span.from, 0),
            Sim::initial(input.span.from, width),
            prev_char(input.subject.spec_bytes(), input.span.from as int),
        );
    } else {
        assert(!quick.spec_valid());
    }
}

/// A search that records fewer spans finds the same match: its spans are
/// the first spans of the search that records more. So `find` returns
/// group 0 of what `find_captures` returns.
pub proof fn lemma_find_prefix(prog: Program, input: Input, fewer: nat, more: nat)
    requires
        fewer <= more,
    ensures
        same_match(find(prog, input, fewer), find(prog, input, more), fewer),
{
    if input.spec_valid() {
        lemma_initial_shape(input.span.from, fewer, more, fewer);
        lemma_search_shape(
            prog,
            input.subject.spec_bytes(),
            input.span.to,
            input.anchored,
            input.first_match,
            input.first_match,
            fewer,
            more,
            fewer,
            Sim::initial(input.span.from, fewer),
            Sim::initial(input.span.from, more),
            prev_char(input.subject.spec_bytes(), input.span.from as int),
        );
    }
}

/// A thread that died leaves the state as it was, and a thread that
/// consumed the current character goes to the back of `next`.
pub proof fn lemma_apply_plain(s: Sim, t: ThreadModel)
    ensures
        s.apply(Outcome::none()) == s,
        s.apply(Outcome::consumed(t)) == (Sim { next: s.next.push(t), ..s }),
{
    assert(Seq::<ThreadModel>::empty() + s.active =~= s.active);
}

/// The threads that a fork leaves behind run after those that later forks
/// leave behind, and before those that were waiting.
pub proof fn lemma_apply_after_fork(s: Sim, o: Outcome, extra: Seq<ThreadModel>)
    ensures
        (Sim { active: extra + s.active, ..s }).apply(o) == s.apply(o.after_fork(extra)),
{
    assert(o.spawned + (extra + s.active) =~= (o.spawned + extra) + s.active);
}

/// Returns true when `c` lies in one of the ranges, which are sorted. The
/// ranges are tried in order, and the search stops at the first range
/// that starts after `c`.
pub fn class_contains(ranges: &Vec<(Char, Char)>, c: Char) -> (r: bool)
    requires
        ranges_sorted(ranges@),
    ensures
        r == in_class(ranges@, c),
{
    proof {
        lemma_class_matches_sorted(ranges@, c, 0);
    }
    let mut i: usize = 0;
    while i < ranges.len()
        invariant
            i <= ranges.len(),
            class_matches(ranges@, c, 0) == in_class(ranges@, c),
            class_matches(ranges@, c, 0) == class_matches(ranges@, c, i as int),
        decreases ranges.len() - i,
    {
        if c.0 < ranges[i].0.0 {
            return false;
        } else if c.0 > ranges[i].1.0 {
            i += 1;
        } else {
            return true;
        }
    }
    false
}

/// Returns true when the assertion holds between the characters `prev` and
/// `c`, where the sentinel stands for the start and the end of the input.
pub fn look_matches(look: Anchor, prev: Char, c: Char) -> (r: bool)
    ensures
        r == look_holds(look, prev, c),
{
    let bound: u32 = crate::util::INPUT_BOUND;
    match look {
        Anchor::Start => prev.0 == bound,
        Anchor::End => c.0 == bound,
        Anchor::StartLF => prev.0 == bound || prev.0 == 0x0A,
        Anchor::EndLF => c.0 == bound || c.0 == 0x0A,
        Anchor::StartCRLF => prev.0 == bound || prev.0 == 0x0A || (prev.0 == 0x0D && c.0 != 0x0A),
        Anchor::EndCRLF => c.0 == bound || c.0 == 0x0D || (c.0 == 0x0A && prev.0 != 0x0D),
    }
}

/// A thread alive in the bytecode.
#[derive(Debug)]
struct Thread {
    pc: usize,
    captures: Vec<Span>,
}

impl View for Thread {
    type V = ThreadModel;

    closed spec fn view(&self) -> ThreadModel {
        ThreadModel { pc: self.pc, caps: self.captures@ }
    }
}

impl Thread {
    /// True when the thread stands in a bytecode of `n` instructions and
    /// records `width` spans.
    pub closed spec fn ok(&self, n: nat, width: nat) -> bool {
        self.pc < n && self.captures@.len() == width
    }

    fn write_reg(&mut self, reg: usize, value: usize)
        ensures
            final(self)@ == (ThreadModel { pc: old(self)@.pc, caps: write_reg(old(self)@.caps, reg, value) }),
            forall|n: nat, width: nat| old(self).ok(n, width) ==> final(self).ok(n, width),
    {
        let slot = reg / 2;
        if slot >= self.captures.len() {
            return;
        }
        let span = self.captures[slot];
        if reg % 2 == 0 {
            self.captures[slot] = Span { from: value, to: span.to };
        } else {
            self.captures[slot] = Span { from: span.from, to: value };
        }
    }

    fn inc_pc(self) -> (r: Self)
        requires
            self@.pc < usize::MAX,
        ensures
            r@ == self@.step(),
    {
        Thread { pc: self.pc + 1, captures: self.captures }
    }

    fn with_pc(self, pc: usize) -> (r: Self)
        ensures
            r@ == self@.at(pc),
    {
        Thread { pc, captures: self.captures }
    }

    /// Ends the thread: its array goes to the arrays that the state keeps
    /// to be used again, as the next to be used. Nothing else changes.
    fn free(self, state: &mut State)
        ensures
            final(state).same_as(old(state)),
            final(state).spare() == old(state).spare().push(self.captures),
    {
        state.cg_free.push(self.captures);
    }

    /// Returns a copy of the thread with an array of its own, which is
    /// taken from the arrays that the state keeps, if it keeps any.
    fn dup(&self, state: &mut State) -> (r: Self)
        ensures
            r@ == self@,
            final(state).same_as(old(state)),
            final(state).spare() == without_last(old(state).spare()),
    {
        let mut captures = state.alloc_array();
        let mut i: usize = 0;
        while i < self.captures.len()
            invariant
                i <= self.captures.len(),
                captures@ == self.captures@.subrange(0, i as int),
                state.same_as(old(state)),
                state.spare() == without_last(old(state).spare()),
            decreases self.captures.len() - i,
        {
            captures.push(self.captures[i]);
            assert(captures@ =~= self.captures@.subrange(0, i + 1));
            i += 1;
        }
        assert(captures@ =~= self.captures@);
        Thread { pc: self.pc, captures }
    }
}

/// The arrays of the threads, in the order of the threads.
spec fn arrays_of(threads: Seq<Thread>) -> Seq<Vec<Span>> {
    Seq::new(threads.len(), |i: int| threads[i].captures)
}

/// What is left of the arrays that are kept once one is taken to be used
/// again: all but the last, if there is any.
pub open spec fn without_last(pool: Seq<Vec<Span>>) -> Seq<Vec<Span>> {
    if pool.len() > 0 {
        pool.drop_last()
    } else {
        pool
    }
}

/// The arrays of the threads at the front of `active` whose program
/// counter is marked in `visited` as admitted at `pos`, in the order of the
/// threads.
spec fn skipped_of(active: Seq<Thread>, visited: Seq<Option<usize>>, pos: usize) -> Seq<Vec<Span>>
    decreases active.len(),
{
    if active.len() > 0 && (active[0].pc >= visited.len() || visited[active[0].pc as int] == Some(pos)) {
        seq![active[0].captures] + skipped_of(active.drop_first(), visited, pos)
    } else {
        Seq::empty()
    }
}

/// The memory of a search: the two queues, the visited set and the best
/// match. Every thread owns an array of spans; a fork copies the array, and
/// the arrays of dead threads are kept to be used again, so that searching
/// in a loop allocates little.
#[derive(Debug)]
pub struct State {
    active: VecDeque<Thread>,
    next: VecDeque<Thread>,
    input_pos: usize,
    /// For each program counter the last input position at which it was
    /// admitted.
    visited: Vec<Option<usize>>,
    /// The capture arrays of dead threads, kept to be used again.
    cg_free: Vec<Vec<Span>>,
    best_match: Option<Thread>,
    capture_count: usize,
    result_len: usize,
}

impl View for State {
    type V = Sim;

    closed spec fn view(&self) -> Sim {
        Sim {
            active: Seq::new(self.active@.len(), |i: int| self.active@[i]@),
            next: Seq::new(self.next@.len(), |i: int| self.next@[i]@),
            visited: Set::new(
                |pc: usize| pc < self.visited@.len() && self.visited@[pc as int] == Some(self.input_pos),
            ),
            best: match self.best_match {
                Some(t) => Some(t@.caps),
                None => None,
            },
            pos: self.input_pos,
        }
    }
}

impl State {
    /// The number of instructions of the bytecode that the state serves.
    pub closed spec fn state_count(&self) -> nat {
        self.visited@.len()
    }

    /// The number of spans that every thread records.
    pub closed spec fn width(&self) -> nat {
        self.result_len as nat
    }

    /// True when every thread stands in the bytecode and records `width`
    /// spans, and no program counter is marked as admitted at a position
    /// yet to come.
    pub closed spec fn wf(&self) -> bool {
        &&& forall|i: int|
            0 <= i < self.active@.len() ==> (#[trigger] self.active@[i]).ok(
                self.visited@.len(),
                self.result_len as nat,
            )
        &&& forall|i: int|
            0 <= i < self.next@.len() ==> (#[trigger] self.next@[i]).ok(
                self.visited@.len(),
                self.result_len as nat,
            )
        &&& (self.best_match matches Some(t) ==> t.captures@.len() == self.result_len)
        &&& forall|pc: int|
            0 <= pc < self.visited@.len() ==> ((#[trigger] self.visited@[pc]) matches Some(p)
                ==> p <= self.input_pos)
    }

    /// The arrays of dead threads that are kept to be used again: the last
    /// is the next to be used.
    pub closed spec fn spare(&self) -> Seq<Vec<Span>> {
        self.cg_free@
    }

    /// The arrays of the threads of the active queue, the first to run
    /// first.
    pub closed spec fn active_arrays(&self) -> Seq<Vec<Span>> {
        arrays_of(self.active@)
    }

    /// The arrays of the threads of the next queue, in their order.
    pub closed spec fn next_arrays(&self) -> Seq<Vec<Span>> {
        arrays_of(self.next@)
    }

    /// The array of the best match, if there is one.
    pub closed spec fn best_arrays(&self) -> Seq<Vec<Span>> {
        match self.best_match {
            Some(t) => seq![t.captures],
            None => Seq::empty(),
        }
    }

    /// The arrays of the threads at the front of the active queue whose
    /// program counter was admitted already at this position, in the order
    /// of the threads: those that the next thread to run is found behind.
    pub closed spec fn skipped(&self) -> Seq<Vec<Span>> {
        skipped_of(self.active@, self.visited@, self.input_pos)
    }

    /// True when the two states differ at most in the arrays they keep for
    /// later.
    pub closed spec fn same_as(&self, other: &State) -> bool {
        &&& self.active == other.active
        &&& self.next == other.next
        &&& self.input_pos == other.input_pos
        &&& self.visited == other.visited
        &&& self.best_match == other.best_match
        &&& self.capture_count == other.capture_count
        &&& self.result_len == other.result_len
    }

    /// Two states that differ at most in the arrays they keep for later
    /// stand for the same state of the simulation.
    proof fn lemma_same(&self, other: &State)
        requires
            self.same_as(other),
        ensures
            self@ == other@,
            self.wf() == other.wf(),
            self.state_count() == other.state_count(),
            self.width() == other.width(),
    {
    }

    fn new(capture_count: usize, state_count: usize, input_pos: usize) -> (r: Self)
        ensures
            r.wf(),
            r.state_count() == state_count,
            r.width() == 0,
            r.capture_count == capture_count,
            r@ == (Sim {
                active: Seq::empty(),
                next: Seq::empty(),
                visited: Set::empty(),
                best: None,
                pos: input_pos,
            }),
    {
        let mut visited: Vec<Option<usize>> = Vec::new();
        let mut i: usize = 0;
        while i < state_count
            invariant
                i <= state_count,
                visited@.len() == i,
                forall|k: int| 0 <= k < i ==> (#[trigger] visited@[k]) is None,
            decreases state_count - i,
        {
            visited.push(None);
            i += 1;
        }
        let r = State {
            active: VecDeque::new(),
            next: VecDeque::new(),
            input_pos,
            visited,
            cg_free: Vec::new(),
            best_match: None,
            capture_count,
            result_len: 0,
        };
        proof {
            assert(r@.active =~= Seq::empty());
            assert(r@.next =~= Seq::empty());
            assert(r@.visited =~= Set::empty());
        }
        r
    }

    /// Makes the state ready for a search at `input_pos` with a bytecode of
    /// `state_count` instructions: no thread is left, and threads will
    /// record `result_len` spans. The arrays of the threads that were left
    /// are kept to be used again.
    fn start(&mut self, capture_count: usize, state_count: usize, result_len: usize, input_pos: usize)
        ensures
            final(self).wf(),
            final(self).state_count() == state_count,
            final(self).width() == result_len,
            final(self).capture_count == capture_count,
            final(self)@ == (Sim {
                active: Seq::empty(),
                next: Seq::empty(),
                visited: Set::empty(),
                best: None,
                pos: input_pos,
            }),
    {
        if self.visited.len() != state_count {
            *self = State::new(capture_count, state_count, input_pos);
        } else {
            self.reset();
            self.capture_count = capture_count;
            self.input_pos = input_pos;
        }
        self.result_len = result_len;
        proof {
            assert(self@.active =~= Seq::empty());
            assert(self@.next =~= Seq::empty());
            assert(self@.visited =~= Set::empty());
        }
    }

    /// Returns an array without any span for a new thread: the array
    /// that was kept last, emptied, when one is kept, which then is kept no
    /// longer. Nothing else changes.
    fn alloc_array(&mut self) -> (r: Vec<Span>)
        ensures
            r@.len() == 0,
            final(self).same_as(old(self)),
            final(self).spare() == without_last(old(self).spare()),
    {
        match self.cg_free.pop() {
            Some(mut array) => {
                array.clear();
                array
            },
            None => Vec::new(),
        }
    }

    /// Returns a thread at `pc` that has recorded nothing. Its array is
    /// taken from the arrays that are kept, if any is kept.
    fn new_thread(&mut self, pc: usize) -> (r: Thread)
        ensures
            r@ == (ThreadModel { pc, caps: blank(old(self).width()) }),
            r.captures@.len() == old(self).width(),
            final(self).same_as(old(self)),
            final(self).spare() == without_last(old(self).spare()),
    {
        let mut captures = self.alloc_array();
        let mut i: usize = 0;
        while i < self.result_len
            invariant
                i <= self.result_len,
                captures@ == blank(i as nat),
                self.same_as(old(self)),
                self.spare() == without_last(old(self).spare()),
            decreases self.result_len - i,
        {
            captures.push(Span::invalid());
            assert(captures@ =~= blank((i + 1) as nat));
            i += 1;
        }
        Thread { pc, captures }
    }

    /// Makes `thread` the best match, with the position as the end of its
    /// overall match. The match that was the best and every thread of the
    /// active queue end: their arrays are kept to be used again, that of
    /// the old match first, then those of the threads in their order.
    fn accept(&mut self, thread: Thread)
        requires
            old(self).wf(),
            thread.ok(old(self).state_count(), old(self).width()),
        ensures
            final(self).wf(),
            final(self).state_count() == old(self).state_count(),
            final(self).width() == old(self).width(),
            final(self).capture_count == old(self).capture_count,
            final(self)@ == (Sim {
                active: Seq::empty(),
                best: Some(write_reg(thread@.caps, 1, old(self)@.pos)),
                ..old(self)@
            }),
            final(self).spare() == old(self).spare() + old(self).best_arrays() + old(self).active_arrays(),
    {
        let mut thread = thread;
        thread.write_reg(1, self.input_pos);
        let ghost caps = thread@.caps;
        let previous = self.best_match.take();
        self.best_match = Some(thread);
        if let Some(prev) = previous {
            self.cg_free.push(prev.captures);
        }
        let ghost base = old(self).spare() + old(self).best_arrays();
        proof {
            assert(self.spare() =~= base);
        }
        loop
            invariant
                base + old(self).active_arrays() == self.spare() + self.active_arrays(),
                self.next == old(self).next,
                self.input_pos == old(self).input_pos,
                self.visited == old(self).visited,
                self.capture_count == old(self).capture_count,
                self.result_len == old(self).result_len,
                self.best_match matches Some(t) && t.captures@ == caps,
            ensures
                self.active@.len() == 0,
            decreases self.active@.len(),
        {
            let ghost waiting = self.active@;
            let ghost kept = self.spare();
            match self.active.pop_front() {
                Some(dead) => {
                    let ghost array = dead.captures;
                    self.cg_free.push(dead.captures);
                    proof {
                        assert(self.active@ =~= waiting.drop_first());
                        assert(arrays_of(waiting) =~= seq![array] + arrays_of(waiting.drop_first()));
                        assert(kept + (seq![array] + arrays_of(waiting.drop_first())) =~= kept.push(array)
                            + arrays_of(waiting.drop_first()));
                    }
                },
                None => {
                    break;
                },
            }
        }
        proof {
            assert(self.spare() + self.active_arrays() =~= self.spare());
            assert(self@.active =~= Seq::empty());
            assert(self@.next =~= old(self)@.next);
            assert(self@.visited =~= old(self)@.visited);
        }
    }

    fn push_active(&mut self, thread: Thread)
        requires
            old(self).wf(),
            thread.ok(old(self).state_count(), old(self).width()),
        ensures
            final(self).wf(),
            final(self).state_count() == old(self).state_count(),
            final(self).width() == old(self).width(),
            final(self).capture_count == old(self).capture_count,
            final(self)@ == (Sim { active: seq![thread@] + old(self)@.active, ..old(self)@ }),
    {
        self.active.push_front(thread);
        proof {
            assert(self@.active =~= seq![thread@] + old(self)@.active);
            assert(self@.next =~= old(self)@.next);
            assert(self@.visited =~= old(self)@.visited);
        }
    }

    fn pop_active(&mut self) -> (r: Option<Thread>)
        requires
            old(self).wf(),
        ensures
            final(self).wf(),
            final(self).state_count() == old(self).state_count(),
            final(self).width() == old(self).width(),
            final(self).capture_count == old(self).capture_count,
            final(self).input_pos == old(self).input_pos,
            final(self).visited == old(self).visited,
            final(self).spare() == old(self).spare(),
            match r {
                Some(t) => {
                    &&& old(self)@.active.len() > 0
                    &&& t == old(self).active@[0]
                    &&& final(self).active@ == old(self).active@.drop_first()
                    &&& t@ == old(self)@.active[0]
                    &&& t.ok(old(self).state_count(), old(self).width())
                    &&& final(self)@ == (Sim { active: old(self)@.active.drop_first(), ..old(self)@ })
                },
                None => {
                    &&& old(self)@.active.len() == 0
                    &&& final(self).active@ == old(self).active@
                    &&& final(self)@ == old(self)@
                },
            },
    {
        let r = self.active.pop_front();
        proof {
            if r is Some {
                assert(self.active@ =~= old(self).active@.drop_first());
            }
        }
        proof {
            assert(self@.next =~= old(self)@.next);
            assert(self@.visited =~= old(self)@.visited);
            if r is Some {
                assert(old(self).active@[0].ok(old(self).state_count(), old(self).width()));
                assert(self@.active =~= old(self)@.active.drop_first());
            } else {
                assert(self@.active =~= old(self)@.active);
            }
        }
        r
    }

    /// Pops the active queue until a thread is found whose program counter
    /// was not admitted yet at this position, admits it and returns it. The
    /// threads that are popped on the way end: their arrays are kept to be
    /// used again, the array of the thread popped last being the next to
    /// be used.
    fn pop_active_until_not_visited(&mut self) -> (r: Option<Thread>)
        requires
            old(self).wf(),
        ensures
            final(self).wf(),
            final(self).state_count() == old(self).state_count(),
            final(self).width() == old(self).width(),
            final(self).capture_count == old(self).capture_count,
            final(self).spare() == old(self).spare() + old(self).skipped(),
            match r {
                Some(t) => {
                    let ready = old(self)@.skip_visited(old(self).state_count());
                    &&& ready.active.len() > 0
                    &&& t@ == ready.active[0]
                    &&& t.ok(old(self).state_count(), old(self).width())
                    &&& !old(self)@.visited.contains(t@.pc)
                    &&& final(self)@ == ready.admit_first()
                },
                None => {
                    let ready = old(self)@.skip_visited(old(self).state_count());
                    &&& ready.active.len() == 0
                    &&& final(self)@ == ready
                },
            },
    {
        let ghost n = self.state_count();
        proof {
            assert(self.spare() + Seq::<Vec<Span>>::empty() =~= self.spare());
        }
        loop
            invariant
                self.wf(),
                self.state_count() == n,
                n == old(self).state_count(),
                self.width() == old(self).width(),
                self.capture_count == old(self).capture_count,
                self@.skip_visited(n) == old(self)@.skip_visited(n),
                self@.visited == old(self)@.visited,
                self.visited == old(self).visited,
                self.input_pos == old(self).input_pos,
                old(self).spare() + old(self).skipped() == self.spare() + self.skipped(),
            decreases self@.active.len(),
        {
            let ghost before = self@;
            let ghost waiting = self.active@;
            let ghost kept = self.spare();
            match self.pop_active() {
                Some(thread) => {
                    let stamp = self.visited[thread.pc];
                    let seen = match stamp {
                        Some(p) => p == self.input_pos,
                        None => false,
                    };
                    if !seen {
                        let ghost popped = self@;
                        proof {
                            assert(skipped_of(waiting, self.visited@, self.input_pos) =~= Seq::<
                                Vec<Span>,
                            >::empty());
                            assert(kept + Seq::<Vec<Span>>::empty() =~= kept);
                        }
                        self.visited[thread.pc] = Some(self.input_pos);
                        proof {
                            assert(self@.active =~= popped.active);
                            assert(self@.next =~= popped.next);
                            assert(self@.visited =~= popped.visited.insert(thread@.pc));
                            assert(!before.visited.contains(thread@.pc));
                        }
                        return Some(thread);
                    } else {
                        assert(before.visited.contains(thread@.pc));
                        let ghost popped = *self;
                        let ghost array = thread.captures;
                        thread.free(self);
                        proof {
                            self.lemma_same(&popped);
                            let later = skipped_of(waiting.drop_first(), self.visited@, self.input_pos);
                            assert(skipped_of(waiting, self.visited@, self.input_pos) == seq![array] + later);
                            assert(kept + (seq![array] + later) =~= kept.push(array) + later);
                        }
                    }
                },
                None => {
                    proof {
                        assert(skipped_of(waiting, self.visited@, self.input_pos) =~= Seq::<Vec<Span>>::empty());
                    }
                    return None;
                },
            }
        }
    }

    fn push_next(&mut self, thread: Thread)
        requires
            old(self).wf(),
            thread.ok(old(self).state_count(), old(self).width()),
        ensures
            final(self).wf(),
            final(self).state_count() == old(self).state_count(),
            final(self).width() == old(self).width(),
            final(self).capture_count == old(self).capture_count,
            final(self)@ == (Sim { next: old(self)@.next.push(thread@), ..old(self)@ }),
    {
        self.next.push_back(thread);
        proof {
            assert(self@.next =~= old(self)@.next.push(thread@));
            assert(self@.active =~= old(self)@.active);
            assert(self@.visited =~= old(self)@.visited);
        }
    }

    fn swap_and_advance_by(&mut self, step: usize)
        requires
            old(self).wf(),
            step >= 1,
            old(self)@.pos + step <= usize::MAX,
        ensures
            final(self).wf(),
            final(self).state_count() == old(self).state_count(),
            final(self).width() == old(self).width(),
            final(self).capture_count == old(self).capture_count,
            final(self)@ == old(self)@.advance((old(self)@.pos + step) as usize),
    {
        self.input_pos += step;
        std::mem::swap(&mut self.active, &mut self.next);
        proof {
            assert(self@.active =~= old(self)@.next);
            assert(self@.next =~= old(self)@.active);
            assert(self@.visited =~= Set::empty());
        }
    }

    /// Ends the best match and every thread: no position is marked as
    /// admitted, and the arrays are kept to be used again, that of the match
    /// first, then those of the active queue, then those of the next queue.
    fn reset(&mut self)
        ensures
            final(self).spare() == old(self).spare() + old(self).best_arrays() + old(self).active_arrays()
                + old(self).next_arrays(),
            final(self).wf(),
            final(self).state_count() == old(self).state_count(),
            final(self).width() == 0,
            final(self).capture_count == old(self).capture_count,
            final(self).active@.len() == 0,
            final(self).next@.len() == 0,
            final(self).best_match is None,
            forall|k: int| 0 <= k < final(self).visited@.len() ==> (#[trigger] final(self).visited@[k]) is None,
            final(self)@ == (Sim {
                active: Seq::empty(),
                next: Seq::empty(),
                visited: Set::empty(),
                best: None,
                pos: old(self)@.pos,
            }),
    {
        if let Some(best) = self.best_match.take() {
            self.cg_free.push(best.captures);
        }
        let ghost base = old(self).spare() + old(self).best_arrays();
        proof {
            assert(self.spare() =~= base);
        }
        let mut i: usize = 0;
        while i < self.visited.len()
            invariant
                i <= self.visited.len(),
                self.spare() == base,
                self.active == old(self).active,
                self.next == old(self).next,
                self.visited.len() == old(self).visited.len(),
                self.capture_count == old(self).capture_count,
                self.input_pos == old(self).input_pos,
                self.best_match is None,
                forall|k: int| 0 <= k < i ==> (#[trigger] self.visited@[k]) is None,
            decreases self.visited.len() - i,
        {
            self.visited[i] = None;
            i += 1;
        }
        loop
            invariant
                base + old(self).active_arrays() == self.spare() + self.active_arrays(),
                self.next == old(self).next,
                self.visited.len() == old(self).visited.len(),
                self.capture_count == old(self).capture_count,
                self.input_pos == old(self).input_pos,
                self.best_match is None,
                forall|k: int| 0 <= k < self.visited.len() ==> (#[trigger] self.visited@[k]) is None,
            ensures
                self.active@.len() == 0,
                self.spare() == base + old(self).active_arrays(),
            decreases self.active@.len(),
        {
            let ghost waiting = self.active@;
            let ghost kept = self.spare();
            match self.active.pop_front() {
                Some(dead) => {
                    let ghost array = dead.captures;
                    self.cg_free.push(dead.captures);
                    proof {
                        assert(self.active@ =~= waiting.drop_first());
                        assert(arrays_of(waiting) =~= seq![array] + arrays_of(waiting.drop_first()));
                        assert(kept + (seq![array] + arrays_of(waiting.drop_first())) =~= kept.push(array)
                            + arrays_of(waiting.drop_first()));
                    }
                },
                None => {
                    proof {
                        assert(self.spare() + self.active_arrays() =~= self.spare());
                    }
                    break;
                },
            }
        }
        let ghost emptied = self.spare();
        loop
            invariant
                emptied + old(self).next_arrays() == self.spare() + self.next_arrays(),
                self.active@.len() == 0,
                self.visited.len() == old(self).visited.len(),
                self.capture_count == old(self).capture_count,
                self.input_pos == old(self).input_pos,
                self.best_match is None,
                forall|k: int| 0 <= k < self.visited.len() ==> (#[trigger] self.visited@[k]) is None,
            ensures
                self.next@.len() == 0,
                self.spare() == emptied + old(self).next_arrays(),
            decreases self.next@.len(),
        {
            let ghost waiting = self.next@;
            let ghost kept = self.spare();
            match self.next.pop_front() {
                Some(dead) => {
                    let ghost array = dead.captures;
                    self.cg_free.push(dead.captures);
                    proof {
                        assert(self.next@ =~= waiting.drop_first());
                        assert(arrays_of(waiting) =~= seq![array] + arrays_of(waiting.drop_first()));
                        assert(kept + (seq![array] + arrays_of(waiting.drop_first())) =~= kept.push(array)
                            + arrays_of(waiting.drop_first()));
                    }
                },
                None => {
                    proof {
                        assert(self.spare() + self.next_arrays() =~= self.spare());
                    }
                    break;
                },
            }
        }
        self.result_len = 0;
        proof {
            assert(self@.active =~= Seq::empty());
            assert(self@.next =~= Seq::empty());
            assert(self@.visited =~= Set::empty());
        }
    }

    fn write_best_match(&mut self, result: &mut Vec<Span>)
        requires
            old(self).wf(),
            old(self)@.best is Some,
        ensures
            final(result)@ == written(
                old(result)@,
                old(self)@.best->0,
                old(self).capture_count as nat,
            ),
            final(self).wf(),
            final(self).state_count() == old(self).state_count(),
            final(self)@ == (Sim { best: None, ..old(self)@ }),
            final(self).spare() == old(self).spare() + old(self).best_arrays(),
    {
        let winning_thread = self.best_match.take().unwrap();
        let ghost caps = winning_thread.captures@;
        let mut result_len = self.capture_count;
        if result.len() < result_len {
            result_len = result.len();
        }
        if winning_thread.captures.len() < result_len {
            result_len = winning_thread.captures.len();
        }
        let mut i: usize = 0;
        while i < result_len
            invariant
                i <= result_len,
                result_len <= result.len(),
                result_len <= winning_thread.captures.len(),
                result.len() == old(result).len(),
                caps == winning_thread.captures@,
                forall|k: int| 0 <= k < i ==> #[trigger] result@[k] == caps[k],
                forall|k: int| i <= k < result.len() ==> #[trigger] result@[k] == old(result)@[k],
            decreases result_len - i,
        {
            result[i] = winning_thread.captures[i];
            i += 1;
        }
        proof {
            assert(result@ =~= written(old(result)@, caps, old(self).capture_count as nat));
        }
        self.cg_free.push(winning_thread.captures);
        proof {
            assert(self@.active =~= old(self)@.active);
            assert(self@.next =~= old(self)@.next);
            assert(self@.visited =~= old(self)@.visited);
            assert(self.spare() =~= old(self).spare() + old(self).best_arrays());
        }
    }
}

/// A so-called Pike VM: an interpreter for the bytecode.
#[derive(Debug)]
pub struct PikeVM {
    bytecode: Bytecode,
    capture_count: usize,
}

impl PikeVM {
    #[verifier::type_invariant]
    spec fn inv(&self) -> bool {
        self.bytecode@.wf()
    }

    /// The bytecode that the machine runs.
    pub closed spec fn program(&self) -> Program {
        self.bytecode@
    }

    /// The number of groups that the machine reports, group 0 included.
    pub closed spec fn groups(&self) -> nat {
        self.capture_count as nat
    }

    /// What a search with this machine returns, when threads record `width`
    /// spans.
    pub open spec fn spec_find(&self, input: Input, width: nat) -> Option<Seq<Span>> {
        find(self.program(), input, width)
    }

    /// A machine for a bytecode that reports `capture_count` groups.
    pub fn from_bytecode(bytecode: Bytecode, capture_count: usize) -> (r: Self)
        requires
            bytecode@.wf(),
        ensures
            r.program() == bytecode@,
            r.groups() == capture_count,
    {
        PikeVM { bytecode, capture_count }
    }

    /// The number of groups that a machine for `ast` reports: group 0 and,
    /// where groups are recorded, the groups of the pattern.
    pub open spec fn groups_of(ast: Ast, cg: bool) -> nat {
        groups_of(ast, cg)
    }

    /// True when `r` is what building a machine for `ast` gives: an error
    /// where the tree has no bytecode, else a machine that runs the
    /// bytecode of the tree.
    pub open spec fn is_built(r: Result<PikeVM, BuildError>, ast: Ast, config: Config) -> bool {
        if !ast.wf() {
            r is Err && r->Err_0 is Malformed
        } else {
            match compile_spec(ast, config.cg) {
                Ok(prog) => {
                    &&& r is Ok
                    &&& r->Ok_0.program() == prog
                    &&& r->Ok_0.groups() == PikeVM::groups_of(ast, config.cg)
                },
                Err(e) => r is Err && r->Err_0 == BuildError::Unsupported(e),
            }
        }
    }

    /// Builds the machine for a syntax tree.
    pub fn from_ast(ast: Ast, config: Config) -> (r: Result<Self, BuildError>)
        ensures
            PikeVM::is_built(r, ast, config),
    {
        match compile_ast(ast, config) {
            Ok((bytecode, capture_count)) => Ok(PikeVM { bytecode, capture_count }),
            Err(e) => Err(e),
        }
    }

    /// Parses a pattern and builds the machine for it.
    pub fn new(pattern: &str, config: Config) -> (r: Result<Self, BuildError>)
        ensures
            match parsed(pattern@, config.unicode, config.case_insensitive) {
                Some(ast) => PikeVM::is_built(r, ast, config),
                None => r is Err && r->Err_0 is Syntax,
            },
    {
        match parse_pattern(pattern, config) {
            Ok(ast) => PikeVM::from_ast(ast, config),
            Err(error) => Err(error),
        }
    }

    /// The number of groups that the machine reports, group 0 included.
    pub fn capture_count(&self) -> (r: usize)
        ensures
            r == self.groups(),
    {
        self.capture_count
    }

    /// Returns a new state for this machine: no thread is in it.
    pub fn new_state(&self) -> (r: State)
        ensures
            r.wf(),
            r.state_count() == self.program().len(),
            r@ == (Sim {
                active: Seq::empty(),
                next: Seq::empty(),
                visited: Set::empty(),
                best: None,
                pos: 0,
            }),
    {
        State::new(self.capture_count, self.bytecode.instructions.len(), 0)
    }

    /// Resets the state: no thread and no match is left in it.
    pub fn reset_state(&self, state: &mut State)
        ensures
            final(state).wf(),
            final(state).state_count() == old(state).state_count(),
            final(state)@ == (Sim {
                active: Seq::empty(),
                next: Seq::empty(),
                visited: Set::empty(),
                best: None,
                pos: old(state)@.pos,
            }),
    {
        state.reset();
    }

    /// Leaves a copy of `thread` for each target but the first, so that the
    /// copy at an earlier target runs before the copy at a later one.
    fn spawn_branches(&self, state: &mut State, thread: &Thread, branches: &Vec<usize>)
        requires
            old(state).wf(),
            thread.ok(old(state).state_count(), old(state).width()),
            branches@.len() > 0,
            forall|k: int| 0 <= k < branches@.len() ==> #[trigger] branches@[k] < old(state).state_count(),
        ensures
            final(state).wf(),
            final(state).state_count() == old(state).state_count(),
            final(state).width() == old(state).width(),
            final(state).capture_count == old(state).capture_count,
            final(state)@ == (Sim {
                active: thread@.forked(branches@) + old(state)@.active,
                ..old(state)@
            }),
    {
        let len = branches.len();
        let ghost all = thread@.forked(branches@);
        let mut k: usize = len;
        proof {
            assert(all.subrange(len - 1, len - 1) + old(state)@.active =~= old(state)@.active);
        }
        while k > 1
            invariant
                1 <= k <= len,
                len == branches@.len(),
                all == thread@.forked(branches@),
                state.wf(),
                state.state_count() == old(state).state_count(),
                state.width() == old(state).width(),
                state.capture_count == old(state).capture_count,
                thread.ok(state.state_count(), state.width()),
                forall|j: int| 0 <= j < branches@.len() ==> #[trigger] branches@[j] < state.state_count(),
                state@ == (Sim {
                    active: all.subrange(k - 1, len - 1) + old(state)@.active,
                    ..old(state)@
                }),
            decreases k,
        {
            k -= 1;
            let ghost before = *state;
            let copy = thread.dup(state);
            proof {
                state.lemma_same(&before);
            }
            let copy = copy.with_pc(branches[k]);
            state.push_active(copy);
            proof {
                assert(seq![copy@] + (all.subrange(k as int, len - 1) + old(state)@.active) =~= all.subrange(
                    k - 1,
                    len - 1,
                ) + old(state)@.active);
            }
        }
        proof {
            assert(all.subrange(0, len - 1) =~= all);
        }
    }

    /// Runs one thread until it consumes the current character, dies or
    /// accepts.
    fn run_thread(&self, state: &mut State, thread: Thread, prev: Char, c: Char)
        requires
            old(state).wf(),
            old(state).state_count() == self.program().len(),
            thread.ok(old(state).state_count(), old(state).width()),
        ensures
            final(state).wf(),
            final(state).state_count() == old(state).state_count(),
            final(state).width() == old(state).width(),
            final(state).capture_count == old(state).capture_count,
            final(state)@ == old(state)@.apply(
                run(self.program(), thread@, self.program().len(), prev, c, old(state)@.pos),
            ),
    {
        proof {
            use_type_invariant(self);
        }
        let ghost prog = self.bytecode@;
        let ghost pos = state@.pos;
        let ghost goal = state@.apply(run(prog, thread@, prog.len(), prev, c, pos));
        let mut thread = thread;
        let mut fuel: usize = self.bytecode.instructions.len();
        loop
            invariant_except_break
                thread.ok(state.state_count(), state.width()),
                state@.pos == pos,
                goal == state@.apply(run(prog, thread@, fuel as nat, prev, c, pos)),
            invariant
                prog == self.bytecode@,
                prog.wf(),
                prog.len() <= usize::MAX,
                state.wf(),
                state.state_count() == prog.len(),
                state.state_count() == old(state).state_count(),
                state.width() == old(state).width(),
                state.capture_count == old(state).capture_count,
            ensures
                state.wf(),
                state.state_count() == old(state).state_count(),
                state.width() == old(state).width(),
                state.capture_count == old(state).capture_count,
                state@ == goal,
            decreases fuel,
        {
            let ghost s = state@;
            let ghost t = thread@;
            proof {
                lemma_apply_plain(s, t.step());
                assert(prog.instructions[t.pc as int] == self.bytecode.instructions@[t.pc as int]@);
                assert(prog.instructions[t.pc as int].within(
                    prog.instructions.len() - 1,
                    prog.outlined_classes.len() as int,
                ));
            }
            if fuel == 0 {
                let ghost before = *state;
                thread.free(state);
                proof {
                    state.lemma_same(&before);
                }
                break;
            }
            fuel -= 1;
            match &self.bytecode.instructions[thread.pc] {
                Instruction::Consume(expected) => {
                    if expected.0 == c.0 {
                        let moved = thread.inc_pc();
                        state.push_next(moved);
                    } else {
                        let ghost before = *state;
                        thread.free(state);
                        proof {
                            state.lemma_same(&before);
                        }
                    }
                    break;
                },
                Instruction::ConsumeAny => {
                    let moved = thread.inc_pc();
                    state.push_next(moved);
                    break;
                },
                Instruction::ConsumeClass(class) => {
                    if class_contains(class, c) {
                        let moved = thread.inc_pc();
                        state.push_next(moved);
                    } else {
                        let ghost before = *state;
                        thread.free(state);
                        proof {
                            state.lemma_same(&before);
                        }
                    }
                    break;
                },
                Instruction::ConsumeOutlined(id) => {
                    assert(prog.outlined_classes[*id as int] == self.bytecode.outlined_classes@[*id as int]@);
                    if class_contains(&self.bytecode.outlined_classes[*id], c) {
                        let moved = thread.inc_pc();
                        state.push_next(moved);
                    } else {
                        let ghost before = *state;
                        thread.free(state);
                        proof {
                            state.lemma_same(&before);
                        }
                    }
                    break;
                },
                Instruction::Fork2(a, b) => {
                    let ghost before = *state;
                    let copy = thread.dup(state);
                    proof {
                        state.lemma_same(&before);
                    }
                    let copy = copy.with_pc(*b);
                    state.push_active(copy);
                    thread.pc = *a;
                    proof {
                        lemma_apply_after_fork(
                            s,
                            run(prog, t.at(*a), fuel as nat, prev, c, pos),
                            seq![t.at(*b)],
                        );
                    }
                },
                Instruction::ForkN(branches) => {
                    self.spawn_branches(state, &thread, branches);
                    thread.pc = branches[0];
                    proof {
                        lemma_apply_after_fork(
                            s,
                            run(prog, t.at(branches@[0]), fuel as nat, prev, c, pos),
                            t.forked(branches@),
                        );
                    }
                },
                Instruction::Jmp(target) => {
                    thread.pc = *target;
                },
                Instruction::WriteReg(r) => {
                    thread.write_reg(*r as usize, state.input_pos);
                    thread.pc += 1;
                },
                Instruction::Assertion(look) => {
                    if look_matches(*look, prev, c) {
                        thread.pc += 1;
                    } else {
                        let ghost before = *state;
                        thread.free(state);
                        proof {
                            state.lemma_same(&before);
                        }
                        break;
                    }
                },
                Instruction::Accept => {
                    state.accept(thread);
                    break;
                },
            }
        }
    }

    /// Does one step of the simulation: runs every thread of the active
    /// queue until it consumed the current character, died or accepted.
    fn step(&self, state: &mut State, prev: Char, c: Char)
        requires
            old(state).wf(),
            old(state).state_count() == self.program().len(),
        ensures
            final(state).wf(),
            final(state).state_count() == old(state).state_count(),
            final(state).width() == old(state).width(),
            final(state).capture_count == old(state).capture_count,
            final(state)@ == step(self.program(), old(state)@, prev, c),
            final(state)@.pos == old(state)@.pos,
            final(state)@.active.len() == 0,
    {
        let ghost prog = self.bytecode@;
        let ghost n = prog.len();
        proof {
            assert(n == self.bytecode.instructions.len());
        }
        loop
            invariant
                prog == self.bytecode@,
                n == prog.len(),
                n <= usize::MAX,
                state.wf(),
                state.state_count() == n,
                state.state_count() == old(state).state_count(),
                state.width() == old(state).width(),
                state.capture_count == old(state).capture_count,
                state@.pos == old(state)@.pos,
                step(prog, old(state)@, prev, c) == step(prog, state@, prev, c),
            ensures
                state.wf(),
                state.state_count() == old(state).state_count(),
                state.width() == old(state).width(),
                state.capture_count == old(state).capture_count,
                state@.pos == old(state)@.pos,
                state@ == step(prog, old(state)@, prev, c),
                state@.active.len() == 0,
            decreases unvisited(n, state@.visited),
        {
            let ghost before = state@;
            proof {
                lemma_skip_visited(before, n);
            }
            match state.pop_active_until_not_visited() {
                Some(thread) => {
                    proof {
                        lemma_unvisited_insert(n, before.visited, thread@.pc);
                    }
                    self.run_thread(state, thread, prev, c);
                },
                None => {
                    proof {
                        lemma_skip_visited(state@, n);
                    }
                    break;
                },
            }
        }
    }

    /// Searches `input` for a match and writes the spans of its groups to
    /// `captures`.
    ///
    /// Returns false, and leaves `captures` as it is, when there is no
    /// match or when the input is not valid. On a match, the spans of the
    /// first groups are written: as many as `captures` has room for and the
    /// pattern has groups. A group that took no part in the match gets an
    /// invalid span.
    pub fn exec(&self, input: Input, state: &mut State, captures: &mut Vec<Span>) -> (matched: bool)
        ensures
            matched == self.spec_find(input, old(captures)@.len()) is Some,
            matched ==> final(captures)@ == written(
                old(captures)@,
                self.spec_find(input, old(captures)@.len())->0,
                self.groups(),
            ),
            !matched ==> final(captures)@ == old(captures)@,
            input.spec_valid() ==> final(state).wf() && final(state).state_count() == self.program().len(),
    {
        proof {
            use_type_invariant(self);
        }
        if !input.valid() {
            return false;
        }
        let n = self.bytecode.instructions.len();
        let Input { subject, span, anchored, first_match } = input;
        let from = span.from;
        let to = span.to;
        let bytes = subject.as_bytes();
        let ghost prog = self.bytecode@;
        let ghost width = captures@.len();
        proof {
            encode_utf8_valid_utf8(subject@);
            if to > bytes@.len() {
                assert(!is_char_boundary(bytes@, to as int));
            }
        }
        state.start(self.capture_count, n, captures.len(), from);
        let mut prev_char = find_prev_char(subject, from);
        let mut first_thread = state.new_thread(0);
        first_thread.write_reg(0, from);
        state.push_active(first_thread);
        let mut pos = from;
        let ghost start = Sim::initial(from, width);
        let ghost start_prev = prev_char;
        let ghost goal = self.spec_find(input, width);
        proof {
            assert(goal == search(prog, bytes@, to, anchored, first_match, width, start, start_prev));
        }
        while pos < to
            invariant
                from <= pos <= to <= bytes@.len(),
                bytes@ == subject.spec_bytes(),
                valid_utf8(bytes@),
                is_char_boundary(bytes@, pos as int),
                is_char_boundary(bytes@, to as int),
                prog == self.bytecode@,
                prog.wf(),
                n == prog.len(),
                width == captures@.len(),
                captures@ == old(captures)@,
                state.wf(),
                state.state_count() == n,
                state.width() == width,
                state.capture_count == self.capture_count,
                state@.pos == pos,
                goal == self.spec_find(input, old(captures)@.len()),
                goal == search(
                    prog,
                    bytes@,
                    to,
                    anchored,
                    first_match,
                    width,
                    state@,
                    prev_char,
                ),
            decreases to - pos,
        {
            proof {
                lemma_boundary_step(bytes@, pos as int);
                lemma_boundary_gap(bytes@, pos as int, to as int);
            }
            let (c, w) = decode_char(bytes, pos);
            self.step(state, prev_char, c);
            prev_char = c;
            if state.best_match.is_some() {
                if first_match || state.next.len() == 0 {
                    state.write_best_match(captures);
                    return true;
                }
                state.swap_and_advance_by(w);
            } else if !anchored {
                let mut thread = state.new_thread(0);
                thread.write_reg(0, pos + w);
                state.push_next(thread);
                state.swap_and_advance_by(w);
            } else if state.next.len() == 0 {
                return false;
            } else {
                state.swap_and_advance_by(w);
            }
            pos += w;
        }
        let last = if to == bytes.len() {
            Char::input_bound()
        } else {
            proof {
                lemma_boundary_step(bytes@, to as int);
            }
            decode_char(bytes, to).0
        };
        self.step(state, prev_char, last);
        if state.best_match.is_some() {
            state.write_best_match(captures);
            true
        } else {
            false
        }
    }
}

} // verus!
