//! A Thompson NFA in bytecode form, and its compiler.
//!
//! The bytecode of a pattern is linear in the size of the pattern. Each
//! instruction is one step of the simulation of the automaton. Beside the
//! instructions stand one barrier flag per instruction, which marks where
//! two paths that meet at one input position are told apart, and the table
//! of the large character classes, each stored once.

use vstd::prelude::*;
use vstd::utf8::*;
use crate::regex::{BuildError, Config};
use crate::thompson::syntax::{parse_pattern, parsed};
use crate::scan::{decode_char, suffix};
use crate::thompson::ast::{ranges_are_sorted, ranges_sorted, Anchor, Ast};
use crate::util::Char;

verus! {

/// The classes with more ranges than this are stored in the table of
/// outlined classes.
pub const INLINE_CLASS_LIMIT: usize = 4;

/// One instruction of the bytecode.
#[derive(Debug, PartialEq, Eq)]
pub enum Instruction {
    /// Match exactly this character, then advance.
    Consume(Char),
    /// Match any character.
    ConsumeAny,
    /// Match a character of these ranges.
    ConsumeClass(Vec<(Char, Char)>),
    /// Match a character of the outlined class with this index.
    ConsumeOutlined(usize),
    /// Split in two; the first target is preferred.
    Fork2(usize, usize),
    /// Split in many; earlier targets are preferred.
    ForkN(Vec<usize>),
    /// Go to the target.
    Jmp(usize),
    /// Record the input position in this capture register.
    WriteReg(u32),
    /// Go on only where the assertion holds.
    Assertion(Anchor),
    /// Declare a match.
    Accept,
}

/// An instruction as a mathematical value.
pub enum Instr {
    Consume(Char),
    ConsumeAny,
    ConsumeClass(Seq<(Char, Char)>),
    ConsumeOutlined(usize),
    Fork2(usize, usize),
    ForkN(Seq<usize>),
    Jmp(usize),
    WriteReg(u32),
    Assertion(Anchor),
    Accept,
}

impl View for Instruction {
    type V = Instr;

    open spec fn view(&self) -> Instr {
        match self {
            Instruction::Consume(c) => Instr::Consume(*c),
            Instruction::ConsumeAny => Instr::ConsumeAny,
            Instruction::ConsumeClass(ranges) => Instr::ConsumeClass(ranges@),
            Instruction::ConsumeOutlined(id) => Instr::ConsumeOutlined(*id),
            Instruction::Fork2(a, b) => Instr::Fork2(*a, *b),
            Instruction::ForkN(targets) => Instr::ForkN(targets@),
            Instruction::Jmp(target) => Instr::Jmp(*target),
            Instruction::WriteReg(r) => Instr::WriteReg(*r),
            Instruction::Assertion(look) => Instr::Assertion(*look),
            Instruction::Accept => Instr::Accept,
        }
    }
}

impl Instr {
    /// True for the instructions that look at the input: those that consume
    /// a character and the assertions.
    pub open spec fn tests_input(self) -> bool {
        self is Consume || self is ConsumeAny || self is ConsumeClass || self is ConsumeOutlined
            || self is Assertion
    }

    /// True when every target of the instruction is at most `bound`, the
    /// class it names is one of the first `classes` of the table, and the
    /// ranges it holds are sorted.
    pub open spec fn within(self, bound: int, classes: int) -> bool {
        match self {
            Instr::ConsumeClass(ranges) => ranges_sorted(ranges),
            Instr::Fork2(a, b) => a <= bound && b <= bound,
            Instr::ForkN(targets) => targets.len() > 0 && forall|k: int|
                0 <= k < targets.len() ==> #[trigger] targets[k] <= bound,
            Instr::Jmp(target) => target <= bound,
            Instr::ConsumeOutlined(id) => id < classes,
            _ => true,
        }
    }
}

/// Why a pattern cannot be compiled.
#[derive(Debug, Clone, Copy, PartialEq, Eq, Structural)]
pub enum CompileError {
    /// The pattern can match a sequence of bytes that is not UTF-8.
    InvalidUtf8,
    /// The pattern holds an assertion that is no anchor.
    ContainsLookAround,
    /// The pattern holds a named group that cannot be reported by index.
    ContainsNamedCaptureGroup,
}

impl CompileError {
    /// The text of `message`.
    pub open spec fn spec_message(self) -> Seq<char> {
        match self {
            CompileError::InvalidUtf8 => "Pattern contains non-unicode sequence"@,
            CompileError::ContainsLookAround => "Pattern contains look-around"@,
            CompileError::ContainsNamedCaptureGroup => "Pattern contains named capture groups"@,
        }
    }

    /// Says in words why the pattern cannot be compiled.
    pub fn message(&self) -> (r: String)
        ensures
            r@ == self.spec_message(),
    {
        match self {
            CompileError::InvalidUtf8 => "Pattern contains non-unicode sequence".to_owned(),
            CompileError::ContainsLookAround => "Pattern contains look-around".to_owned(),
            CompileError::ContainsNamedCaptureGroup => "Pattern contains named capture groups".to_owned(),
        }
    }
}

/// The bytecode of a pattern.
#[derive(Debug, PartialEq, Eq)]
pub struct Bytecode {
    pub instructions: Vec<Instruction>,
    pub barriers: Vec<bool>,
    pub outlined_classes: Vec<Vec<(Char, Char)>>,
}

/// A bytecode as a mathematical value.
pub struct Program {
    pub instructions: Seq<Instr>,
    pub barriers: Seq<bool>,
    pub outlined_classes: Seq<Seq<(Char, Char)>>,
}

impl View for Bytecode {
    type V = Program;

    open spec fn view(&self) -> Program {
        Program {
            instructions: Seq::new(self.instructions@.len(), |i: int| self.instructions@[i]@),
            barriers: self.barriers@,
            outlined_classes: Seq::new(
                self.outlined_classes@.len(),
                |i: int| self.outlined_classes@[i]@,
            ),
        }
    }
}

/// The index of the first class from `from` on that equals `ranges`, or the
/// length of the table when there is none.
pub open spec fn class_index(table: Seq<Seq<(Char, Char)>>, ranges: Seq<(Char, Char)>, from: int) -> int
    decreases table.len() - from,
{
    if from < 0 || from >= table.len() {
        table.len() as int
    } else if table[from] == ranges {
        from
    } else {
        class_index(table, ranges, from + 1)
    }
}

impl Program {
    /// The bytecode without any instruction.
    pub open spec fn empty() -> Program {
        Program { instructions: Seq::empty(), barriers: Seq::empty(), outlined_classes: Seq::empty() }
    }

    /// The number of instructions.
    pub open spec fn len(self) -> nat {
        self.instructions.len()
    }

    /// The bytecode with one more instruction. An instruction that looks at
    /// the input is a barrier whatever `barrier` says.
    pub open spec fn push(self, instr: Instr, barrier: bool) -> Program {
        Program {
            instructions: self.instructions.push(instr),
            barriers: self.barriers.push(barrier || instr.tests_input()),
            ..self
        }
    }

    /// The bytecode with the instruction at `pc` replaced.
    pub open spec fn patch(self, pc: int, instr: Instr) -> Program {
        Program { instructions: self.instructions.update(pc, instr), ..self }
    }

    /// The bytecode with a barrier at `pc`.
    pub open spec fn mark(self, pc: int) -> Program {
        Program { barriers: self.barriers.update(pc, true), ..self }
    }

    /// The index that `ranges` has in the table once it is stored there.
    pub open spec fn class_id(self, ranges: Seq<(Char, Char)>) -> int {
        class_index(self.outlined_classes, ranges, 0)
    }

    /// The bytecode with `ranges` in the table of outlined classes: added
    /// at the end unless an equal class is stored already.
    pub open spec fn intern(self, ranges: Seq<(Char, Char)>) -> Program {
        if self.class_id(ranges) == self.outlined_classes.len() {
            Program { outlined_classes: self.outlined_classes.push(ranges), ..self }
        } else {
            self
        }
    }

    /// True when the ranges of every class of the table are sorted.
    pub open spec fn classes_sorted(self) -> bool {
        forall|id: int| 0 <= id < self.outlined_classes.len() ==> ranges_sorted(#[trigger] self.outlined_classes[id])
    }

    /// True when no class stands twice in the table.
    pub open spec fn classes_distinct(self) -> bool {
        forall|i: int, j: int|
            0 <= i < j < self.outlined_classes.len() ==> #[trigger] self.outlined_classes[i]
                != #[trigger] self.outlined_classes[j]
    }

    /// True while the bytecode is being written: there is one flag per
    /// instruction, no target lies beyond the end, every class named is in
    /// the table, the ranges of every class are sorted, no class stands
    /// twice in the table and every instruction that looks at the input is
    /// a barrier.
    pub open spec fn weak_wf(self) -> bool {
        &&& self.barriers.len() == self.instructions.len()
        &&& self.classes_sorted()
        &&& self.classes_distinct()
        &&& forall|pc: int|
            0 <= pc < self.instructions.len() ==> {
                &&& (#[trigger] self.instructions[pc]).within(
                    self.instructions.len() as int,
                    self.outlined_classes.len() as int,
                )
                &&& (self.instructions[pc].tests_input() ==> self.barriers[pc])
            }
    }

    /// True when the bytecode can be run: there is one flag per instruction,
    /// every target is an instruction, every class named is in the table,
    /// the ranges of every class are sorted, every instruction that looks at
    /// the input is a barrier, and the last instruction is `Accept`.
    pub open spec fn wf(self) -> bool {
        &&& self.instructions.len() > 0
        &&& self.barriers.len() == self.instructions.len()
        &&& self.instructions.last() is Accept
        &&& self.classes_sorted()
        &&& forall|pc: int|
            0 <= pc < self.instructions.len() ==> {
                &&& (#[trigger] self.instructions[pc]).within(
                    self.instructions.len() - 1,
                    self.outlined_classes.len() as int,
                )
                &&& (self.instructions[pc].tests_input() ==> self.barriers[pc])
            }
    }
}

/// The state of a compilation: what is written so far, and whether the next
/// instruction needs a barrier.
pub struct Emitted {
    pub prog: Program,
    pub barrier: bool,
}

/// The state after the mandatory iterations of a repetition, and where the
/// last of them starts.
pub struct Repeated {
    pub st: Emitted,
    pub last_start: Option<usize>,
}

/// The state after some optional iterations of a repetition, and where the
/// fork before each of them stands.
pub struct Optional {
    pub st: Emitted,
    pub forks: Seq<usize>,
}

/// The state after some branches of an alternation, where each branch
/// starts, and where the jump after each branch but the last stands.
pub struct Branches {
    pub prog: Program,
    pub heads: Seq<usize>,
    pub jumps: Seq<usize>,
}

impl Emitted {
    /// The state with `prog` written and `barrier` pending.
    pub open spec fn new(prog: Program, barrier: bool) -> Emitted {
        Emitted { prog, barrier }
    }
}

impl Repeated {
    /// The state `st`, with the start of the last iteration.
    pub open spec fn new(st: Emitted, last_start: Option<usize>) -> Repeated {
        Repeated { st, last_start }
    }
}

impl Optional {
    /// The state `st`, with the forks written so far.
    pub open spec fn new(st: Emitted, forks: Seq<usize>) -> Optional {
        Optional { st, forks }
    }
}

impl Branches {
    /// The bytecode `prog`, with the heads and jumps written so far.
    pub open spec fn new(prog: Program, heads: Seq<usize>, jumps: Seq<usize>) -> Branches {
        Branches { prog, heads, jumps }
    }
}

/// A fork between the body of a repetition and what follows it: a greedy
/// repetition prefers the body.
pub open spec fn fork2(body: usize, after: usize, greedy: bool) -> Instr {
    if greedy {
        Instr::Fork2(body, after)
    } else {
        Instr::Fork2(after, body)
    }
}

/// A literal: one `Consume` per code point. Only the first may need the
/// barrier that was asked for.
pub open spec fn emit_literal(bytes: Seq<u8>, st: Emitted) -> Emitted
    decreases bytes.len(),
{
    if bytes.len() == 0 || !valid_first_scalar(bytes) {
        st
    } else {
        emit_literal(
            pop_first_scalar(bytes),
            Emitted {
                prog: st.prog.push(Instr::Consume(Char(decode_first_scalar(bytes))), st.barrier),
                barrier: false,
            },
        )
    }
}

/// A class: inline when it is small, else by its index in the table.
pub open spec fn emit_class(ranges: Seq<(Char, Char)>, st: Emitted) -> Emitted {
    if ranges.len() > INLINE_CLASS_LIMIT {
        Emitted {
            prog: st.prog.intern(ranges).push(
                Instr::ConsumeOutlined(st.prog.class_id(ranges) as usize),
                st.barrier,
            ),
            barrier: false,
        }
    } else {
        Emitted { prog: st.prog.push(Instr::ConsumeClass(ranges), st.barrier), barrier: false }
    }
}

/// The forks at `forks[i..]` each choose between the instruction after them
/// and `end`.
pub open spec fn patch_forks(prog: Program, forks: Seq<usize>, i: int, end: usize, greedy: bool) -> Program
    decreases forks.len() - i,
{
    if i < 0 || i >= forks.len() {
        prog
    } else {
        patch_forks(
            prog.patch(forks[i] as int, fork2((forks[i] + 1) as usize, end, greedy)),
            forks,
            i + 1,
            end,
            greedy,
        )
    }
}

/// The jumps at `jumps[i..]` each go to `end`.
pub open spec fn patch_jumps(prog: Program, jumps: Seq<usize>, i: int, end: usize) -> Program
    decreases jumps.len() - i,
{
    if i < 0 || i >= jumps.len() {
        prog
    } else {
        patch_jumps(prog.patch(jumps[i] as int, Instr::Jmp(end)), jumps, i + 1, end)
    }
}

/// What the compiler writes for `ast` after `st`.
pub open spec fn emit(ast: Ast, cg: bool, st: Emitted) -> Emitted
    decreases ast, 0nat, 0nat,
{
    match ast {
        Ast::Empty => st,
        Ast::Literal(bytes) => emit_literal(bytes@, st),
        Ast::Class(class) => emit_class(class.ranges(), st),
        Ast::Look(look) => match look.spec_anchor() {
            Some(kind) => Emitted { prog: st.prog.push(Instr::Assertion(kind), st.barrier), barrier: false },
            None => st,
        },
        Ast::Repetition { min, max, greedy, sub } => {
            let done = emit_times(*sub, cg, min as nat, Repeated { st, last_start: None });
            match max {
                Some(max) => {
                    let extra = if max > min {
                        (max - min) as nat
                    } else {
                        0
                    };
                    let opt = emit_optional(
                        *sub,
                        cg,
                        extra,
                        Optional { st: done.st, forks: Seq::empty() },
                    );
                    Emitted {
                        prog: patch_forks(
                            opt.st.prog,
                            opt.forks,
                            0,
                            opt.st.prog.len() as usize,
                            greedy,
                        ),
                        barrier: true,
                    }
                },
                None => match done.last_start {
                    Some(start) => {
                        let pc = done.st.prog.len();
                        Emitted {
                            prog: done.st.prog.push(
                                fork2(start, (pc + 1) as usize, greedy),
                                done.st.barrier,
                            ).mark(start as int),
                            barrier: false,
                        }
                    },
                    None => {
                        let pc = done.st.prog.len();
                        let body = emit(
                            *sub,
                            cg,
                            Emitted { prog: done.st.prog.push(Instr::Jmp(0), true), barrier: false },
                        );
                        let back = body.prog.push(Instr::Jmp(pc as usize), body.barrier);
                        Emitted {
                            prog: back.patch(
                                pc as int,
                                fork2((pc + 1) as usize, back.len() as usize, greedy),
                            ),
                            barrier: false,
                        }
                    },
                },
            }
        },
        Ast::Capture { index, sub } => {
            if cg {
                let body = emit(
                    *sub,
                    cg,
                    Emitted {
                        prog: st.prog.push(Instr::WriteReg((index * 2) as u32), st.barrier),
                        barrier: false,
                    },
                );
                Emitted {
                    prog: body.prog.push(Instr::WriteReg((index * 2 + 1) as u32), body.barrier),
                    barrier: false,
                }
            } else {
                emit(*sub, cg, st)
            }
        },
        Ast::Concat(subs) => emit_seq(subs@, cg, 0, st),
        Ast::Alternation(subs) => {
            let pc = st.prog.len();
            let all = emit_branches(
                subs@,
                cg,
                0,
                Branches {
                    prog: st.prog.push(Instr::Jmp(0), st.barrier),
                    heads: Seq::empty(),
                    jumps: Seq::empty(),
                },
            );
            Emitted {
                prog: patch_jumps(
                    all.prog.patch(pc as int, Instr::ForkN(all.heads)),
                    all.jumps,
                    0,
                    all.prog.len() as usize,
                ),
                barrier: true,
            }
        },
    }
}

/// `n` copies of `sub`, one after the other.
pub open spec fn emit_times(sub: Ast, cg: bool, n: nat, acc: Repeated) -> Repeated
    decreases sub, 1nat, n,
{
    if n == 0 {
        acc
    } else {
        emit_times(
            sub,
            cg,
            (n - 1) as nat,
            Repeated {
                st: emit(sub, cg, acc.st),
                last_start: if n == 1 {
                    Some(acc.st.prog.len() as usize)
                } else {
                    acc.last_start
                },
            },
        )
    }
}

/// `n` optional copies of `sub`, each behind a fork that is yet to be
/// pointed at the end.
pub open spec fn emit_optional(sub: Ast, cg: bool, n: nat, acc: Optional) -> Optional
    decreases sub, 1nat, n,
{
    if n == 0 {
        acc
    } else {
        emit_optional(
            sub,
            cg,
            (n - 1) as nat,
            Optional {
                st: emit(
                    sub,
                    cg,
                    Emitted { prog: acc.st.prog.push(Instr::Jmp(0), acc.st.barrier), barrier: false },
                ),
                forks: acc.forks.push(acc.st.prog.len() as usize),
            },
        )
    }
}

/// The expressions `subs[i..]`, one after the other.
pub open spec fn emit_seq(subs: Seq<Ast>, cg: bool, i: nat, st: Emitted) -> Emitted
    decreases subs, 1nat, subs.len() - i,
{
    if i >= subs.len() {
        st
    } else {
        emit_seq(subs, cg, i + 1, emit(subs[i as int], cg, st))
    }
}

/// The branches `subs[i..]` of an alternation: each starts without a
/// barrier, and each but the last ends in a jump that is yet to be pointed
/// at the end.
pub open spec fn emit_branches(subs: Seq<Ast>, cg: bool, i: nat, acc: Branches) -> Branches
    decreases subs, 1nat, subs.len() - i,
{
    if i >= subs.len() {
        acc
    } else {
        let body = emit(subs[i as int], cg, Emitted { prog: acc.prog, barrier: false });
        emit_branches(
            subs,
            cg,
            i + 1,
            if i + 1 < subs.len() {
                Branches {
                    prog: body.prog.push(Instr::Jmp(0), body.barrier),
                    heads: acc.heads.push(acc.prog.len() as usize),
                    jumps: acc.jumps.push(body.prog.len() as usize),
                }
            } else {
                Branches {
                    prog: body.prog,
                    heads: acc.heads.push(acc.prog.len() as usize),
                    jumps: acc.jumps,
                }
            },
        )
    }
}

/// The bytecode of a pattern, or why it has none: the pattern must match
/// valid UTF-8 only and hold no assertion but the anchors; what is written
/// for it ends in `Accept`.
pub open spec fn compile_spec(ast: Ast, cg: bool) -> Result<Program, CompileError> {
    if !ast.spec_is_utf8() {
        Err(CompileError::InvalidUtf8)
    } else if ast.has_word_boundary() {
        Err(CompileError::ContainsLookAround)
    } else {
        Ok(
            emit(ast, cg, Emitted { prog: Program::empty(), barrier: false }).prog.push(
                Instr::Accept,
                false,
            ),
        )
    }
}

impl Instruction {
    /// Returns true for the instructions that look at the input.
    pub fn tests_input(&self) -> (r: bool)
        ensures
            r == self@.tests_input(),
    {
        match self {
            Instruction::Consume(_) => true,
            Instruction::ConsumeAny => true,
            Instruction::ConsumeClass(_) => true,
            Instruction::ConsumeOutlined(_) => true,
            Instruction::Assertion(_) => true,
            _ => false,
        }
    }
}

impl Instruction {
    /// Returns true when every target of the instruction is at most
    /// `bound`, the class it names is one of the first `classes` of the
    /// table, and the ranges it holds are sorted.
    pub fn is_within(&self, bound: usize, classes: usize) -> (r: bool)
        ensures
            r == self@.within(bound as int, classes as int),
    {
        match self {
            Instruction::Fork2(a, b) => *a <= bound && *b <= bound,
            Instruction::ForkN(targets) => {
                if targets.len() == 0 {
                    return false;
                }
                let mut k: usize = 0;
                while k < targets.len()
                    invariant
                        k <= targets.len(),
                        *self == Instruction::ForkN(*targets),
                        forall|j: int| 0 <= j < k ==> #[trigger] targets@[j] <= bound,
                    decreases targets.len() - k,
                {
                    if targets[k] > bound {
                        assert(!(targets@[k as int] <= bound));
                        return false;
                    }
                    k += 1;
                }
                true
            },
            Instruction::Jmp(target) => *target <= bound,
            Instruction::ConsumeOutlined(id) => *id < classes,
            Instruction::ConsumeClass(ranges) => ranges_are_sorted(ranges),
            _ => true,
        }
    }
}

impl Bytecode {
    /// Returns true when the bytecode can be run: there is one flag for
    /// each instruction, every target is an instruction, every class named
    /// is in the table, the ranges of every class are sorted, every
    /// instruction that looks at the input is a barrier, and the last
    /// instruction is `Accept`.
    pub fn is_well_formed(&self) -> (r: bool)
        ensures
            r == self@.wf(),
    {
        let n = self.instructions.len();
        if n == 0 || self.barriers.len() != n {
            return false;
        }
        assert(self@.instructions.last() == self.instructions@[n - 1]@);
        match &self.instructions[n - 1] {
            Instruction::Accept => {},
            _ => {
                return false;
            },
        }
        let classes = self.outlined_classes.len();
        let mut id: usize = 0;
        while id < classes
            invariant
                id <= classes,
                classes == self.outlined_classes.len(),
                forall|k: int| 0 <= k < id ==> ranges_sorted(#[trigger] self@.outlined_classes[k]),
            decreases classes - id,
        {
            assert(self@.outlined_classes[id as int] == self.outlined_classes@[id as int]@);
            if !ranges_are_sorted(&self.outlined_classes[id]) {
                return false;
            }
            id += 1;
        }
        let mut pc: usize = 0;
        while pc < n
            invariant
                pc <= n,
                n == self.instructions.len(),
                n == self.barriers.len(),
                classes == self.outlined_classes.len(),
                self@.classes_sorted(),
                forall|k: int|
                    0 <= k < pc ==> {
                        &&& (#[trigger] self@.instructions[k]).within(n - 1, classes as int)
                        &&& (self@.instructions[k].tests_input() ==> self@.barriers[k])
                    },
            decreases n - pc,
        {
            assert(self@.instructions[pc as int] == self.instructions@[pc as int]@);
            if !self.instructions[pc].is_within(n - 1, classes) {
                return false;
            }
            if self.instructions[pc].tests_input() && !self.barriers[pc] {
                return false;
            }
            pc += 1;
        }
        true
    }
}

/// Returns true when the two classes hold the same ranges in the same order.
pub fn same_ranges(a: &Vec<(Char, Char)>, b: &Vec<(Char, Char)>) -> (r: bool)
    ensures
        r == (a@ == b@),
{
    if a.len() != b.len() {
        return false;
    }
    let mut i: usize = 0;
    while i < a.len()
        invariant
            i <= a.len(),
            a.len() == b.len(),
            forall|k: int| 0 <= k < i ==> a@[k] == b@[k],
        decreases a.len() - i,
    {
        if a[i].0.0 != b[i].0.0 || a[i].1.0 != b[i].1.0 {
            assert(a@[i as int] != b@[i as int]);
            return false;
        }
        i += 1;
    }
    assert(a@ =~= b@);
    true
}

/// A compiler from a syntax tree to bytecode.
#[derive(Debug)]
pub struct Compiler {
    bytecode: Bytecode,
    config: Config,
}

impl Compiler {
    /// Compiles a pattern to bytecode.
    ///
    /// Fails when the pattern can match bytes that are not UTF-8, or when it
    /// holds an assertion that is no anchor. The bytecode can be run, and
    /// every large class stands once in its table.
    pub fn compile(ast: Ast, config: Config) -> (r: Result<Bytecode, CompileError>)
        requires
            ast.wf(),
        ensures
            match compile_spec(ast, config.cg) {
                Ok(prog) => r is Ok && r->Ok_0@ == prog && prog.wf() && prog.classes_distinct(),
                Err(e) => r is Err && r->Err_0 == e,
            },
    {
        if !ast.is_utf8() {
            return Err(CompileError::InvalidUtf8);
        }
        if ast.contains_word_boundary() {
            return Err(CompileError::ContainsLookAround);
        }
        let mut compiler = Compiler {
            bytecode: Bytecode {
                instructions: Vec::new(),
                barriers: Vec::new(),
                outlined_classes: Vec::new(),
            },
            config,
        };
        proof {
            assert(compiler.bytecode@.instructions =~= Program::empty().instructions);
            assert(compiler.bytecode@.outlined_classes =~= Program::empty().outlined_classes);
        }
        compiler.compile_internal(&ast, false);
        compiler.push(Instruction::Accept, false);
        Ok(compiler.bytecode)
    }

    fn current_pc(&self) -> (pc: usize)
        ensures
            pc == self.bytecode@.len(),
    {
        self.bytecode.instructions.len()
    }

    fn push(&mut self, instruction: Instruction, barrier: bool)
        requires
            old(self).bytecode@.weak_wf(),
            instruction@.within(
                old(self).bytecode@.len() as int + 1,
                old(self).bytecode@.outlined_classes.len() as int,
            ),
        ensures
            final(self).bytecode@ == old(self).bytecode@.push(instruction@, barrier),
            final(self).bytecode@.len() == old(self).bytecode@.len() + 1,
            final(self).bytecode@.len() <= usize::MAX,
            final(self).bytecode@.weak_wf(),
            final(self).config == old(self).config,
    {
        let flag = barrier || instruction.tests_input();
        let ghost before = self.bytecode@;
        let ghost instr = instruction@;
        self.bytecode.instructions.push(instruction);
        self.bytecode.barriers.push(flag);
        proof {
            let after = self.bytecode@;
            assert(after.instructions.len() == self.bytecode.instructions.len());
            assert(after.instructions =~= before.instructions.push(instr));
            assert(after.outlined_classes =~= before.outlined_classes);
            assert forall|pc: int| 0 <= pc < after.instructions.len() implies {
                &&& (#[trigger] after.instructions[pc]).within(
                    after.instructions.len() as int,
                    after.outlined_classes.len() as int,
                )
                &&& (after.instructions[pc].tests_input() ==> after.barriers[pc])
            } by {
                if pc < before.instructions.len() {
                    assert(before.instructions[pc].within(
                        before.instructions.len() as int,
                        before.outlined_classes.len() as int,
                    ));
                }
            }
        }
    }

    fn patch(&mut self, pc: usize, instruction: Instruction)
        requires
            old(self).bytecode@.weak_wf(),
            pc < old(self).bytecode@.len(),
            !instruction@.tests_input(),
            instruction@.within(
                old(self).bytecode@.len() as int,
                old(self).bytecode@.outlined_classes.len() as int,
            ),
        ensures
            final(self).bytecode@ == old(self).bytecode@.patch(pc as int, instruction@),
            final(self).bytecode@.len() == old(self).bytecode@.len(),
            final(self).bytecode@.weak_wf(),
            final(self).config == old(self).config,
    {
        let ghost before = self.bytecode@;
        let ghost instr = instruction@;
        self.bytecode.instructions[pc] = instruction;
        proof {
            let after = self.bytecode@;
            assert(after.instructions =~= before.instructions.update(pc as int, instr));
            assert(after.outlined_classes =~= before.outlined_classes);
            assert forall|k: int| 0 <= k < after.instructions.len() implies {
                &&& (#[trigger] after.instructions[k]).within(
                    after.instructions.len() as int,
                    after.outlined_classes.len() as int,
                )
                &&& (after.instructions[k].tests_input() ==> after.barriers[k])
            } by {
                if k != pc {
                    assert(before.instructions[k].within(
                        before.instructions.len() as int,
                        before.outlined_classes.len() as int,
                    ));
                }
            }
        }
    }

    fn mark(&mut self, pc: usize)
        requires
            old(self).bytecode@.weak_wf(),
            pc < old(self).bytecode@.len(),
        ensures
            final(self).bytecode@ == old(self).bytecode@.mark(pc as int),
            final(self).bytecode@.len() == old(self).bytecode@.len(),
            final(self).bytecode@.weak_wf(),
            final(self).config == old(self).config,
    {
        let ghost before = self.bytecode@;
        self.bytecode.barriers[pc] = true;
        proof {
            let after = self.bytecode@;
            assert(after.instructions =~= before.instructions);
            assert(after.outlined_classes =~= before.outlined_classes);
            assert forall|k: int| 0 <= k < after.instructions.len() implies {
                &&& (#[trigger] after.instructions[k]).within(
                    after.instructions.len() as int,
                    after.outlined_classes.len() as int,
                )
                &&& (after.instructions[k].tests_input() ==> after.barriers[k])
            } by {
                assert(before.instructions[k].within(
                    before.instructions.len() as int,
                    before.outlined_classes.len() as int,
                ));
            }
        }
    }

    /// Stores a class in the table, unless an equal one is there, and
    /// returns its index.
    fn intern(&mut self, ranges: Vec<(Char, Char)>) -> (id: usize)
        requires
            old(self).bytecode@.weak_wf(),
            ranges_sorted(ranges@),
        ensures
            final(self).bytecode@ == old(self).bytecode@.intern(ranges@),
            id == old(self).bytecode@.class_id(ranges@),
            id < final(self).bytecode@.outlined_classes.len(),
            final(self).bytecode@.len() == old(self).bytecode@.len(),
            final(self).bytecode@.weak_wf(),
            final(self).config == old(self).config,
    {
        let ghost before = self.bytecode@;
        let mut i: usize = 0;
        while i < self.bytecode.outlined_classes.len()
            invariant
                i <= self.bytecode.outlined_classes.len(),
                self.bytecode@ == before,
                before.weak_wf(),
                self.config == old(self).config,
                class_index(before.outlined_classes, ranges@, 0) == class_index(
                    before.outlined_classes,
                    ranges@,
                    i as int,
                ),
                forall|k: int| 0 <= k < i ==> #[trigger] before.outlined_classes[k] != ranges@,
            decreases self.bytecode.outlined_classes.len() - i,
        {
            assert(before.outlined_classes[i as int] == self.bytecode.outlined_classes@[i as int]@);
            if same_ranges(&self.bytecode.outlined_classes[i], &ranges) {
                return i;
            }
            i += 1;
        }
        let id = self.bytecode.outlined_classes.len();
        self.bytecode.outlined_classes.push(ranges);
        proof {
            let after = self.bytecode@;
            assert(after.instructions =~= before.instructions);
            assert(after.outlined_classes =~= before.outlined_classes.push(ranges@));
            assert forall|k: int| 0 <= k < after.instructions.len() implies {
                &&& (#[trigger] after.instructions[k]).within(
                    after.instructions.len() as int,
                    after.outlined_classes.len() as int,
                )
                &&& (after.instructions[k].tests_input() ==> after.barriers[k])
            } by {
                assert(before.instructions[k].within(
                    before.instructions.len() as int,
                    before.outlined_classes.len() as int,
                ));
            }
        }
        id
    }

    fn fork2(body: usize, after: usize, greedy: bool) -> (r: Instruction)
        ensures
            r@ == fork2(body, after, greedy),
    {
        if greedy {
            Instruction::Fork2(body, after)
        } else {
            Instruction::Fork2(after, body)
        }
    }

    /// Writes the bytecode of `ast`. Takes whether the first instruction
    /// needs a barrier, and returns whether what comes next needs one.
    fn compile_internal(&mut self, ast: &Ast, barrier: bool) -> (r: bool)
        requires
            ast.wf(),
            ast.spec_is_utf8(),
            !ast.has_word_boundary(),
            old(self).bytecode@.weak_wf(),
        ensures
            Emitted::new(final(self).bytecode@, r) == emit(
                *ast,
                old(self).config.cg,
                Emitted::new(old(self).bytecode@, barrier),
            ),
            old(self).bytecode@.len() <= final(self).bytecode@.len(),
            final(self).bytecode@.weak_wf(),
            final(self).config == old(self).config,
        decreases ast,
    {
        let ghost cg = self.config.cg;
        let ghost cfg = self.config;
        let ghost st0 = Emitted::new(self.bytecode@, barrier);
        let mut barrier = barrier;
        match ast {
            Ast::Empty => barrier,
            Ast::Literal(bytes) => {
                let mut pos: usize = 0;
                proof {
                    assert(suffix(bytes@, 0) =~= bytes@);
                }
                while pos < bytes.len()
                    invariant
                        pos <= bytes@.len(),
                        valid_utf8(suffix(bytes@, pos as int)),
                        emit_literal(bytes@, st0) == emit_literal(
                            suffix(bytes@, pos as int),
                            Emitted::new(self.bytecode@, barrier),
                        ),
                        st0.prog.len() <= self.bytecode@.len(),
                        self.bytecode@.weak_wf(),
                        self.config == cfg,
                    decreases bytes@.len() - pos,
                {
                    let (c, w) = decode_char(bytes.as_slice(), pos);
                    self.push(Instruction::Consume(c), barrier);
                    barrier = false;
                    proof {
                        assert(pop_first_scalar(suffix(bytes@, pos as int)) =~= suffix(
                            bytes@,
                            pos + w,
                        ));
                    }
                    pos += w;
                }
                barrier
            },
            Ast::Class(class) => {
                let ranges = class.to_ranges();
                if ranges.len() > INLINE_CLASS_LIMIT {
                    let id = self.intern(ranges);
                    self.push(Instruction::ConsumeOutlined(id), barrier);
                } else {
                    self.push(Instruction::ConsumeClass(ranges), barrier);
                }
                false
            },
            Ast::Look(look) => {
                match look.anchor() {
                    Some(kind) => {
                        self.push(Instruction::Assertion(kind), barrier);
                        false
                    },
                    None => barrier,
                }
            },
            Ast::Repetition { min, max, greedy, sub } => {
                let mut last_iter_start: Option<usize> = None;
                let mut i: u32 = 0;
                while i < *min
                    invariant
                        i <= *min,
                        *ast is Repetition,
                        ast->Repetition_sub == *sub,
                        sub.wf(),
                        sub.spec_is_utf8(),
                        !sub.has_word_boundary(),
                        emit_times(**sub, cg, *min as nat, Repeated::new(st0, None))
                            == emit_times(
                            **sub,
                            cg,
                            (*min - i) as nat,
                            Repeated::new(Emitted::new(self.bytecode@, barrier), last_iter_start),
                        ),
                        last_iter_start matches Some(s) ==> s <= self.bytecode@.len(),
                        i < *min ==> last_iter_start is None,
                        st0.prog.len() <= self.bytecode@.len(),
                        self.bytecode@.weak_wf(),
                        self.config == cfg,
                        cfg.cg == cg,
                    decreases *min - i,
                {
                    if i == *min - 1 {
                        last_iter_start = Some(self.current_pc());
                    }
                    assert(decreases_to!(*ast => ast->Repetition_sub));
                    barrier = self.compile_internal(sub, barrier);
                    i += 1;
                }
                match max {
                    Some(max) => {
                        let ghost done = Emitted::new(self.bytecode@, barrier);
                        let ghost extra: nat = if *max > *min {
                            (*max - *min) as nat
                        } else {
                            0
                        };
                        let mut forks_pc: Vec<usize> = Vec::new();
                        let mut k: u32 = *min;
                        while k < *max
                            invariant
                                *min <= k,
                                k <= *max || extra == 0,
                                extra == 0 ==> k == *min,
                                extra == (if *max > *min { *max - *min } else { 0 }),
                                *ast is Repetition,
                                ast->Repetition_sub == *sub,
                                sub.wf(),
                                sub.spec_is_utf8(),
                                !sub.has_word_boundary(),
                                emit_optional(
                                    **sub,
                                    cg,
                                    extra,
                                    Optional::new(done, Seq::empty()),
                                ) == emit_optional(
                                    **sub,
                                    cg,
                                    if extra == 0 { 0 } else { (*max - k) as nat },
                                    Optional::new(Emitted::new(self.bytecode@, barrier), forks_pc@),
                                ),
                                forall|j: int|
                                    0 <= j < forks_pc@.len() ==> #[trigger] forks_pc@[j]
                                        < self.bytecode@.len(),
                                st0.prog.len() <= self.bytecode@.len(),
                                self.bytecode@.weak_wf(),
                                self.config == cfg,
                                cfg.cg == cg,
                            decreases *max - k,
                        {
                            forks_pc.push(self.current_pc());
                            self.push(Instruction::Jmp(0), barrier);
                            assert(decreases_to!(*ast => ast->Repetition_sub));
                                    barrier = self.compile_internal(sub, false);
                            k += 1;
                        }
                        let end_pc = self.current_pc();
                        let ghost opt = Optional::new(Emitted::new(self.bytecode@, barrier), forks_pc@);
                        let mut j: usize = 0;
                        while j < forks_pc.len()
                            invariant
                                j <= forks_pc.len(),
                                end_pc == self.bytecode@.len(),
                                patch_forks(opt.st.prog, forks_pc@, 0, end_pc, *greedy)
                                    == patch_forks(
                                    self.bytecode@,
                                    forks_pc@,
                                    j as int,
                                    end_pc,
                                    *greedy,
                                ),
                                forall|j: int|
                                    0 <= j < forks_pc@.len() ==> #[trigger] forks_pc@[j]
                                        < self.bytecode@.len(),
                                self.bytecode@.weak_wf(),
                                self.config == cfg,
                            decreases forks_pc.len() - j,
                        {
                            let fork_pc = forks_pc[j];
                            self.patch(fork_pc, Self::fork2(fork_pc + 1, end_pc, *greedy));
                            j += 1;
                        }
                        true
                    },
                    None => match last_iter_start {
                        Some(start) => {
                            let ghost done = self.bytecode@;
                            let pc = self.current_pc();
                            self.push(Instruction::Jmp(0), barrier);
                            self.patch(pc, Self::fork2(start, pc + 1, *greedy));
                            proof {
                                let direct = done.push(fork2(start, (pc + 1) as usize, *greedy), barrier);
                                assert(self.bytecode@.instructions =~= direct.instructions);
                                assert(self.bytecode@.barriers =~= direct.barriers);
                            }
                            self.mark(start);
                            false
                        },
                        None => {
                            let fork_pc = self.current_pc();
                            self.push(Instruction::Jmp(0), true);
                            assert(decreases_to!(*ast => ast->Repetition_sub));
                                    barrier = self.compile_internal(sub, false);
                            self.push(Instruction::Jmp(fork_pc), barrier);
                            let end_pc = self.current_pc();
                            self.patch(fork_pc, Self::fork2(fork_pc + 1, end_pc, *greedy));
                            false
                        },
                    },
                }
            },
            Ast::Capture { index, sub } => {
                if self.config.cg {
                    self.push(Instruction::WriteReg(*index * 2), barrier);
                    let barrier = self.compile_internal(sub, false);
                    self.push(Instruction::WriteReg(*index * 2 + 1), barrier);
                    false
                } else {
                    self.compile_internal(sub, barrier)
                }
            },
            Ast::Concat(subs) => {
                let mut i: usize = 0;
                while i < subs.len()
                    invariant
                        i <= subs.len(),
                        *ast is Concat,
                        ast->Concat_0 == *subs,
                        ast.wf(),
                        ast.spec_is_utf8(),
                        !ast.has_word_boundary(),
                        emit_seq(subs@, cg, 0, st0) == emit_seq(
                            subs@,
                            cg,
                            i as nat,
                            Emitted::new(self.bytecode@, barrier),
                        ),
                        st0.prog.len() <= self.bytecode@.len(),
                        self.bytecode@.weak_wf(),
                        self.config == cfg,
                        cfg.cg == cg,
                    decreases subs.len() - i,
                {
                    assert(decreases_to!(*ast => ast->Concat_0));
                    assert(decreases_to!(*subs => subs[i as int]));
                    assert(subs@[i as int].wf());
                    assert(subs@[i as int].spec_is_utf8());
                    assert(!subs@[i as int].has_word_boundary());
                    barrier = self.compile_internal(&subs[i], barrier);
                    i += 1;
                }
                barrier
            },
            Ast::Alternation(subs) => {
                let length = subs.len();
                let mut fork_targets: Vec<usize> = Vec::new();
                let mut jmps: Vec<usize> = Vec::new();
                let current_pc = self.current_pc();
                self.push(Instruction::Jmp(0), barrier);
                let ghost first = Branches::new(self.bytecode@, Seq::empty(), Seq::empty());
                let mut i: usize = 0;
                while i < length
                    invariant
                        i <= length,
                        length == subs.len(),
                        *ast is Alternation,
                        ast->Alternation_0 == *subs,
                        ast.wf(),
                        ast.spec_is_utf8(),
                        !ast.has_word_boundary(),
                        emit_branches(subs@, cg, 0, first) == emit_branches(
                            subs@,
                            cg,
                            i as nat,
                            Branches::new(self.bytecode@, fork_targets@, jmps@),
                        ),
                        fork_targets@.len() == i,
                        forall|j: int|
                            0 <= j < fork_targets@.len() ==> #[trigger] fork_targets@[j]
                                <= self.bytecode@.len(),
                        forall|j: int|
                            0 <= j < jmps@.len() ==> #[trigger] jmps@[j] < self.bytecode@.len(),
                        current_pc < self.bytecode@.len(),
                        self.bytecode@.weak_wf(),
                        self.config == cfg,
                        cfg.cg == cg,
                    decreases length - i,
                {
                    fork_targets.push(self.current_pc());
                    assert(decreases_to!(*ast => ast->Alternation_0));
                    assert(decreases_to!(*subs => subs[i as int]));
                    assert(subs@[i as int].wf());
                    assert(subs@[i as int].spec_is_utf8());
                    assert(!subs@[i as int].has_word_boundary());
                    let barrier = self.compile_internal(&subs[i], false);
                    if i < length - 1 {
                        jmps.push(self.current_pc());
                        self.push(Instruction::Jmp(0), barrier);
                    }
                    i += 1;
                }
                let end_pc = self.current_pc();
                self.patch(current_pc, Instruction::ForkN(fork_targets));
                let ghost patched = self.bytecode@;
                let mut j: usize = 0;
                while j < jmps.len()
                    invariant
                        j <= jmps.len(),
                        end_pc == self.bytecode@.len(),
                        patch_jumps(patched, jmps@, 0, end_pc) == patch_jumps(
                            self.bytecode@,
                            jmps@,
                            j as int,
                            end_pc,
                        ),
                        forall|j: int|
                            0 <= j < jmps@.len() ==> #[trigger] jmps@[j] < self.bytecode@.len(),
                        self.bytecode@.weak_wf(),
                        self.config == cfg,
                    decreases jmps.len() - j,
                {
                    let pc = jmps[j];
                    self.patch(pc, Instruction::Jmp(end_pc));
                    j += 1;
                }
                true
            },
        }
    }
}

/// The number of groups that are reported for `ast`: group 0 and, where
/// groups are recorded, the groups of the pattern.
pub open spec fn groups_of(ast: Ast, cg: bool) -> nat {
    if cg && ast.captures_len() + 1 <= usize::MAX {
        ast.captures_len() + 1
    } else if cg {
        usize::MAX as nat
    } else {
        1
    }
}

/// True when `r` is what compiling `ast` gives: an error where the tree is
/// none that a parser gives or has no bytecode, else the bytecode of the
/// tree and the number of groups that are reported for it.
pub open spec fn is_compiled(r: Result<(Bytecode, usize), BuildError>, ast: Ast, config: Config) -> bool {
    if !ast.wf() {
        r is Err && r->Err_0 is Malformed
    } else {
        match compile_spec(ast, config.cg) {
            Ok(prog) => {
                &&& r is Ok
                &&& r->Ok_0.0@ == prog
                &&& prog.wf()
                &&& prog.classes_distinct()
                &&& r->Ok_0.1 == groups_of(ast, config.cg)
            },
            Err(e) => r is Err && r->Err_0 == BuildError::Unsupported(e),
        }
    }
}

/// Compiles a syntax tree for any engine: returns its bytecode and the
/// number of groups that are reported.
pub fn compile_ast(ast: Ast, config: Config) -> (r: Result<(Bytecode, usize), BuildError>)
    ensures
        is_compiled(r, ast, config),
{
    if !ast.is_well_formed() {
        return Err(BuildError::Malformed);
    }
    let capture_count = if config.cg {
        ast.explicit_captures_len().saturating_add(1)
    } else {
        1
    };
    match Compiler::compile(ast, config) {
        Ok(bytecode) => Ok((bytecode, capture_count)),
        Err(e) => Err(BuildError::Unsupported(e)),
    }
}

/// Parses and compiles a pattern for any engine: returns its bytecode and
/// the number of groups that are reported. Every engine accepts the
/// patterns for which this succeeds, and no others.
pub fn compile_pattern(pattern: &str, config: Config) -> (r: Result<(Bytecode, usize), BuildError>)
    ensures
        match parsed(pattern@, config.unicode, config.case_insensitive) {
            Some(ast) => is_compiled(r, ast, config),
            None => r is Err && r->Err_0 is Syntax,
        },
{
    match parse_pattern(pattern, config) {
        Ok(ast) => compile_ast(ast, config),
        Err(error) => Err(error),
    }
}

} // verus!
