//! The user-facing regular expression, its configuration and its builder.

use vstd::prelude::*;
use vstd::string::StringSliceAdditionalSpecFns;
use vstd::utf8::*;
use crate::scan::lemma_boundary_step;
use crate::thompson::ast::Ast;
use crate::thompson::bytecode::{CompileError, Program};
use crate::thompson::pike_vm::{
    find, lemma_find_prefix, lemma_find_sound, lemma_is_match_iff_find, PikeVM, State,
};
use crate::thompson::syntax::parsed;
use crate::util::{Captures, Input, Match, Span};

verus! {

/// Why a regular expression cannot be built.
#[derive(Debug, PartialEq, Eq)]
pub enum BuildError {
    /// The pattern is no regular expression. The text says why.
    Syntax(String),
    /// The pattern holds something that the engines do not support.
    Unsupported(CompileError),
    /// The syntax tree is none that a parser gives: an alternation has no
    /// branch, or the index of a group is too large.
    Malformed,
}

/// The options of a compilation.
#[derive(Debug, Clone, Copy, PartialEq, Eq, Structural)]
pub struct Config {
    /// Classes stand for sets of Unicode code points rather than of bytes.
    pub unicode: bool,
    /// Letters match whatever their case.
    pub case_insensitive: bool,
    /// Groups are recorded; when false only the overall match is reported.
    pub cg: bool,
}

impl Default for Config {
    fn default() -> (r: Self)
        ensures
            r == (Config { unicode: true, case_insensitive: false, cg: true }),
    {
        Config { unicode: true, case_insensitive: false, cg: true }
    }
}

impl BuildError {
    /// Says in words why the regular expression cannot be built.
    pub fn message(&self) -> (r: String)
        ensures
            self matches BuildError::Syntax(text) ==> r@ == text@,
            self matches BuildError::Unsupported(e) ==> r@ == e.spec_message(),
            self is Malformed ==> r@ == "Pattern has a malformed syntax tree"@,
    {
        match self {
            BuildError::Syntax(text) => text.clone(),
            BuildError::Unsupported(e) => e.message(),
            BuildError::Malformed => "Pattern has a malformed syntax tree".to_owned(),
        }
    }
}

/// Sets the options of a regular expression before it is compiled.
#[derive(Debug, Clone, Copy)]
pub struct Builder<'s> {
    pattern: &'s str,
    config: Config,
}

impl<'s> Builder<'s> {
    /// The pattern to compile.
    pub closed spec fn pattern(&self) -> &'s str {
        self.pattern
    }

    /// The options to compile it with.
    pub closed spec fn config(&self) -> Config {
        self.config
    }

    /// A builder for `pattern` with the default options.
    pub fn new(pattern: &'s str) -> (r: Self)
        ensures
            r.pattern() == pattern,
            r.config() == (Config { unicode: true, case_insensitive: false, cg: true }),
    {
        Builder { pattern, config: Config::default() }
    }

    /// Sets whether classes stand for sets of Unicode code points.
    pub fn unicode(self, value: bool) -> (r: Self)
        ensures
            r.pattern() == self.pattern(),
            r.config() == (Config { unicode: value, ..self.config() }),
    {
        Builder { pattern: self.pattern, config: Config { unicode: value, ..self.config } }
    }

    /// Sets whether letters match whatever their case.
    pub fn case_insensitive(self, value: bool) -> (r: Self)
        ensures
            r.pattern() == self.pattern(),
            r.config() == (Config { case_insensitive: value, ..self.config() }),
    {
        Builder { pattern: self.pattern, config: Config { case_insensitive: value, ..self.config } }
    }

    /// Sets whether groups are recorded.
    pub fn cg(self, value: bool) -> (r: Self)
        ensures
            r.pattern() == self.pattern(),
            r.config() == (Config { cg: value, ..self.config() }),
    {
        Builder { pattern: self.pattern, config: Config { cg: value, ..self.config } }
    }

    /// Compiles the pattern for the interpreter.
    pub fn pike_vm(self) -> (r: Result<Regex, BuildError>)
        ensures
            match parsed(self.pattern()@, self.config().unicode, self.config().case_insensitive) {
                Some(ast) => Regex::is_built(r, ast, self.config()),
                None => r is Err && r->Err_0 is Syntax,
            },
    {
        match PikeVM::new(self.pattern, self.config) {
            Ok(engine) => {
                let capture_count = engine.capture_count();
                Ok(Regex { engine, capture_count })
            },
            Err(e) => Err(e),
        }
    }
}

/// A regular expression.
#[derive(Debug)]
pub struct Regex {
    engine: PikeVM,
    capture_count: usize,
}

impl Regex {
    #[verifier::type_invariant]
    spec fn inv(&self) -> bool {
        self.capture_count == self.engine.groups() && self.capture_count >= 1
    }

    /// The bytecode of the pattern.
    pub closed spec fn program(&self) -> Program {
        self.engine.program()
    }

    /// The number of groups of the pattern, group 0 included.
    pub closed spec fn groups(&self) -> nat {
        self.engine.groups()
    }

    /// True when `r` is what compiling `ast` gives: an error where the tree
    /// has no bytecode, else a regular expression with the bytecode of the
    /// tree.
    pub open spec fn is_built(r: Result<Regex, BuildError>, ast: Ast, config: Config) -> bool {
        if !ast.wf() {
            r is Err && r->Err_0 is Malformed
        } else {
            match crate::thompson::bytecode::compile_spec(ast, config.cg) {
                Ok(prog) => {
                    &&& r is Ok
                    &&& r->Ok_0.program() == prog
                    &&& r->Ok_0.groups() == PikeVM::groups_of(ast, config.cg)
                },
                Err(e) => r is Err && r->Err_0 == BuildError::Unsupported(e),
            }
        }
    }

    /// The span of the leftmost match in `input`, if there is one.
    pub open spec fn spec_find(&self, input: Input) -> Option<Span> {
        match find(self.program(), input, 1) {
            Some(caps) => Some(caps[0]),
            None => None,
        }
    }

    /// Compiles a pattern for the interpreter, with the default options.
    pub fn pike_vm(pattern: &str) -> (r: Result<Self, BuildError>)
        ensures
            match parsed(pattern@, true, false) {
                Some(ast) => Regex::is_built(
                    r,
                    ast,
                    Config { unicode: true, case_insensitive: false, cg: true },
                ),
                None => r is Err && r->Err_0 is Syntax,
            },
    {
        Builder::new(pattern).pike_vm()
    }

    /// Returns true if the input matches, without the bounds of the match.
    /// This is true if and only if `find` finds a match, but the search may
    /// stop earlier.
    pub fn is_match<'s>(&self, input: Input<'s>) -> (r: bool)
        ensures
            r == find(self.program(), Input { first_match: true, ..input }, 0) is Some,
            r == self.spec_find(input) is Some,
    {
        proof {
            lemma_is_match_iff_find(self.program(), input, 1);
        }
        let mut state = self.engine.new_state();
        let mut none: Vec<Span> = Vec::new();
        self.engine.exec(input.first_match(true), &mut state, &mut none)
    }

    /// Searches the input and returns the leftmost match, if there is one.
    pub fn find<'s>(&self, input: Input<'s>) -> (r: Option<Match<'s>>)
        ensures
            match self.spec_find(input) {
                Some(span) => r == Some(Match { subject: input.subject, span }),
                None => r is None,
            },
            r matches Some(m) ==> m.wf() && input.span.from <= m.span.from && m.span.to <= input.span.to,
    {
        proof {
            use_type_invariant(self);
            lemma_find_sound(self.program(), input, 1);
        }
        let mut state = self.engine.new_state();
        let mut result: Vec<Span> = Vec::new();
        result.push(Span::invalid());
        let found = self.engine.exec(input, &mut state, &mut result);
        if !found {
            return None;
        }
        Some(Match::new(input.subject, result[0]))
    }

    /// Returns all the matches in the input that do not overlap, from left
    /// to right, one at each call of `next`.
    pub fn find_all<'r, 's>(&'r self, input: Input<'s>) -> (r: AllMatch<'r, 's>)
        ensures
            r.regex() == self,
            r.input() == input,
    {
        let state = self.engine.new_state();
        AllMatch { input, regex: self, state }
    }

    /// Searches the input and returns the leftmost match with the bounds of
    /// all its groups, if there is one. Where the overall match is all that
    /// is needed, `find` does less work.
    pub fn find_captures<'s>(&self, input: Input<'s>) -> (r: Option<Captures<'s>>)
        ensures
            match find(self.program(), input, self.groups()) {
                Some(caps) => r is Some && r->0.subject() == input.subject && r->0.spans() == caps,
                None => r is None,
            },
            r is Some <==> self.spec_find(input) is Some,
            r matches Some(c) ==> c.spans().len() == self.groups() && c.spans()[0] == self.spec_find(input)->0,
    {
        proof {
            use_type_invariant(self);
            lemma_find_sound(self.program(), input, self.groups());
            lemma_find_sound(self.program(), input, 1);
            lemma_find_prefix(self.program(), input, 1, self.groups());
        }
        let mut state = self.engine.new_state();
        let mut spans = invalid_spans(self.capture_count);
        let found = self.engine.exec(input, &mut state, &mut spans);
        if !found {
            return None;
        }
        proof {
            let caps = find(self.program(), input, self.groups())->0;
            assert(spans@ =~= caps);
        }
        Some(Captures::new(input.subject, spans))
    }

    /// Returns all the matches in the input that do not overlap, each with
    /// the bounds of its groups, from left to right, one at each call of
    /// `next`.
    pub fn find_all_captures<'r, 's>(&'r self, input: Input<'s>) -> (r: AllCaptures<'r, 's>)
        ensures
            r.regex() == self,
            r.input() == input,
    {
        let state = self.engine.new_state();
        AllCaptures { input, regex: self, state }
    }
}

/// Returns `count` invalid spans.
pub fn invalid_spans(count: usize) -> (r: Vec<Span>)
    ensures
        r@.len() == count,
        forall|i: int| 0 <= i < count ==> #[trigger] r@[i] == Span::spec_invalid(),
{
    let mut spans: Vec<Span> = Vec::new();
    let mut i: usize = 0;
    while i < count
        invariant
            i <= count,
            spans@.len() == i,
            forall|k: int| 0 <= k < i ==> #[trigger] spans@[k] == Span::spec_invalid(),
        decreases count - i,
    {
        spans.push(Span::invalid());
        i += 1;
    }
    spans
}

/// The span to search after a match at `span`: from where the next match
/// that does not overlap it may start, to the end of the span of the input.
/// It is invalid, which ends the search, once that start lies behind the
/// end of the span, where it is no offset at all, and where `span` is no
/// match in the subject: no valid span on character boundaries.
pub open spec fn span_after(input: Input, span: Span) -> Span {
    if !(Match { subject: input.subject, span }).wf() || span.from == usize::MAX || (Match {
        subject: input.subject,
        span,
    }).spec_next_match_start() > usize::MAX {
        Span::spec_invalid()
    } else {
        Span {
            from: (Match { subject: input.subject, span }).spec_next_match_start() as usize,
            to: input.span.to,
        }
    }
}

/// Returns the span to search after a match at `span`.
pub fn next_span(input: Input, span: Span) -> (r: Span)
    ensures
        r == span_after(input, span),
{
    if !span.valid() || !input.subject.is_char_boundary(span.from) || !input.subject.is_char_boundary(
        span.to,
    ) || span.from == usize::MAX {
        return Span::invalid();
    }
    let found = Match::new(input.subject, span);
    Span { from: found.next_match_start(), to: input.span.to }
}

/// The number of offsets at which a match may still start.
pub open spec fn offsets_left(input: Input) -> nat {
    if input.span.spec_valid() {
        (input.span.to - input.span.from + 1) as nat
    } else {
        0
    }
}

/// After a match in a valid span, fewer offsets are left at which a match
/// may start.
pub proof fn lemma_span_after(prog: Program, input: Input, width: nat)
    requires
        width >= 1,
        input.span.spec_valid(),
        find(prog, input, width) is Some,
    ensures
        offsets_left(Input { span: span_after(input, find(prog, input, width)->0[0]), ..input })
            < offsets_left(input),
        span_after(input, find(prog, input, width)->0[0]).spec_valid() ==> find(prog, input, width)->0[0].from
            < span_after(input, find(prog, input, width)->0[0]).from,
{
    lemma_find_sound(prog, input, width);
    let span = find(prog, input, width)->0[0];
    let bytes = input.subject.spec_bytes();
    encode_utf8_valid_utf8(input.subject@);
    let found = Match { subject: input.subject, span };
    let next = found.spec_next_match_start();
    assert(input.span.from <= span.from <= span.to <= input.span.to);
    if span.from > bytes.len() {
        assert(!is_char_boundary(bytes, span.from as int));
    }
    if span.from < usize::MAX {
        if span.from == span.to {
            if span.from < bytes.len() {
                lemma_boundary_step(bytes, span.from as int);
                assert(next == span.from + crate::scan::width_at(bytes, span.from as int));
            } else {
                assert(next == span.from + 1);
            }
        } else {
            assert(next == span.to);
        }
        assert(span.from < next);
        if next <= usize::MAX {
            assert(span_after(input, span) == (Span { from: next as usize, to: input.span.to }));
        } else {
            assert(span_after(input, span) == Span::spec_invalid());
        }
    } else {
        assert(span_after(input, span) == Span::spec_invalid());
    }
}

/// The spans of all the matches in `input` that do not overlap, from left
/// to right: the leftmost match, then the matches in what is left after
/// it.
pub open spec fn matches_in(prog: Program, input: Input) -> Seq<Span>
    decreases offsets_left(input),
{
    if input.span.spec_valid() && find(prog, input, 1) is Some {
        proof {
            lemma_span_after(prog, input, 1);
        }
        let span = find(prog, input, 1)->0[0];
        seq![span] + matches_in(prog, Input { span: span_after(input, span), ..input })
    } else {
        Seq::empty()
    }
}

/// The spans of the groups of all the matches in `input` that do not
/// overlap, from left to right, when `groups` spans are recorded.
pub open spec fn captures_in(prog: Program, input: Input, groups: nat) -> Seq<Seq<Span>>
    decreases offsets_left(input),
{
    if groups >= 1 && input.span.spec_valid() && find(prog, input, groups) is Some {
        proof {
            lemma_span_after(prog, input, groups);
        }
        let caps = find(prog, input, groups)->0;
        seq![caps] + captures_in(prog, Input { span: span_after(input, caps[0]), ..input }, groups)
    } else {
        Seq::empty()
    }
}

/// All the matches of a regular expression in an input, from left to
/// right.
#[derive(Debug)]
pub struct AllMatch<'r, 's> {
    input: Input<'s>,
    regex: &'r Regex,
    state: State,
}

impl<'r, 's> AllMatch<'r, 's> {
    /// The regular expression that is searched for.
    pub closed spec fn regex(&self) -> &'r Regex {
        self.regex
    }

    /// What is left to search.
    pub closed spec fn input(&self) -> Input<'s> {
        self.input
    }

    /// The span of the match that `next` returns, if it returns one.
    pub open spec fn upcoming(&self) -> Option<Span> {
        if self.input().span.spec_valid() {
            self.regex().spec_find(self.input())
        } else {
            None
        }
    }

    /// Returns the next match, or `None` when there is none left.
    ///
    /// The match lies in what was left to search. After it, what is left
    /// starts behind the start of the match, so that only finitely many
    /// calls return a match.
    pub fn next(&mut self) -> (r: Option<Match<'s>>)
        ensures
            final(self).regex() == old(self).regex(),
            match old(self).upcoming() {
                Some(span) => {
                    &&& r == Some(Match { subject: old(self).input().subject, span })
                    &&& final(self).input() == (Input {
                        span: span_after(old(self).input(), span),
                        ..old(self).input()
                    })
                },
                None => r is None && final(self).input() == old(self).input(),
            },
            r matches Some(m) ==> {
                &&& m.wf()
                &&& old(self).input().span.from <= m.span.from
                &&& m.span.to <= old(self).input().span.to
                &&& offsets_left(final(self).input()) < offsets_left(old(self).input())
                &&& final(self).input().span.spec_valid() ==> m.span.from < final(self).input().span.from
            },
    {
        proof {
            use_type_invariant(self.regex);
            lemma_find_sound(self.regex.program(), self.input, 1);
        }
        if !self.input.span.valid() {
            return None;
        }
        let mut spans: Vec<Span> = Vec::new();
        spans.push(Span::invalid());
        let found = self.regex.engine.exec(self.input, &mut self.state, &mut spans);
        if !found {
            return None;
        }
        let result = Match::new(self.input.subject, spans[0]);
        self.input.span = next_span(self.input, result.span);
        Some(result)
    }

    /// Returns all the matches that are left, from left to right.
    pub fn collect(self) -> (r: Vec<Match<'s>>)
        ensures
            r@.len() == matches_in(self.regex().program(), self.input()).len(),
            forall|i: int|
                0 <= i < r@.len() ==> (#[trigger] r@[i]) == (Match {
                    subject: self.input().subject,
                    span: matches_in(self.regex().program(), self.input())[i],
                }),
            forall|i: int| 0 <= i < r@.len() ==> (#[trigger] r@[i]).wf(),
            forall|i: int, j: int|
                0 <= i < j < r@.len() ==> (#[trigger] r@[i]).span.from < (#[trigger] r@[j]).span.from,
    {
        let ghost prog = self.regex().program();
        let ghost first = self.input();
        let mut all = self;
        let mut out: Vec<Match<'s>> = Vec::new();
        let ghost mut spans: Seq<Span> = Seq::empty();
        proof {
            assert(spans + matches_in(prog, first) =~= matches_in(prog, first));
        }
        loop
            invariant
                all.regex().program() == prog,
                all.input().subject == first.subject,
                spans.len() == out@.len(),
                forall|i: int|
                    0 <= i < out@.len() ==> (#[trigger] out@[i]) == (Match {
                        subject: first.subject,
                        span: spans[i],
                    }),
                matches_in(prog, first) == spans + matches_in(prog, all.input()),
                forall|i: int| 0 <= i < out@.len() ==> (#[trigger] out@[i]).wf(),
                forall|i: int, j: int|
                    0 <= i < j < out@.len() ==> (#[trigger] out@[i]).span.from < (#[trigger] out@[j]).span.from,
                forall|i: int|
                    0 <= i < out@.len() && all.input().span.spec_valid() ==> (#[trigger] out@[i]).span.from
                        < all.input().span.from,
            ensures
                spans.len() == out@.len(),
                forall|i: int|
                    0 <= i < out@.len() ==> (#[trigger] out@[i]) == (Match {
                        subject: first.subject,
                        span: spans[i],
                    }),
                matches_in(prog, first) == spans,
                forall|i: int| 0 <= i < out@.len() ==> (#[trigger] out@[i]).wf(),
                forall|i: int, j: int|
                    0 <= i < j < out@.len() ==> (#[trigger] out@[i]).span.from < (#[trigger] out@[j]).span.from,
            decreases offsets_left(all.input()),
        {
            let ghost before = all.input();
            match all.next() {
                Some(m) => {
                    out.push(m);
                    proof {
                        let rest = matches_in(prog, all.input());
                        assert(matches_in(prog, before) == seq![m.span] + rest);
                        assert(spans + (seq![m.span] + rest) =~= spans.push(m.span) + rest);
                        spans = spans.push(m.span);
                    }
                },
                None => {
                    proof {
                        assert(matches_in(prog, before) =~= Seq::<Span>::empty());
                        assert(spans + Seq::<Span>::empty() =~= spans);
                    }
                    break;
                },
            }
        }
        out
    }
}

/// All the matches of a regular expression in an input, each with its
/// groups, from left to right.
#[derive(Debug)]
pub struct AllCaptures<'r, 's> {
    input: Input<'s>,
    regex: &'r Regex,
    state: State,
}

impl<'r, 's> AllCaptures<'r, 's> {
    /// The regular expression that is searched for.
    pub closed spec fn regex(&self) -> &'r Regex {
        self.regex
    }

    /// What is left to search.
    pub closed spec fn input(&self) -> Input<'s> {
        self.input
    }

    /// The spans of the match that `next` returns, if it returns one.
    pub open spec fn upcoming(&self) -> Option<Seq<Span>> {
        if self.input().span.spec_valid() {
            find(self.regex().program(), self.input(), self.regex().groups())
        } else {
            None
        }
    }

    /// Returns the next match with its groups, or `None` when there is none
    /// left.
    ///
    /// The match lies in what was left to search. After it, what is left
    /// starts behind the start of the match, so that only finitely many
    /// calls return a match.
    pub fn next(&mut self) -> (r: Option<Captures<'s>>)
        ensures
            final(self).regex() == old(self).regex(),
            match old(self).upcoming() {
                Some(caps) => {
                    &&& r is Some
                    &&& r->0.subject() == old(self).input().subject
                    &&& r->0.spans() == caps
                    &&& final(self).input() == (Input {
                        span: span_after(old(self).input(), caps[0]),
                        ..old(self).input()
                    })
                },
                None => r is None && final(self).input() == old(self).input(),
            },
            r matches Some(c) ==> {
                &&& c.spans().len() >= 1
                &&& c.spans()[0].spec_valid()
                &&& old(self).input().span.from <= c.spans()[0].from
                &&& c.spans()[0].to <= old(self).input().span.to
                &&& offsets_left(final(self).input()) < offsets_left(old(self).input())
                &&& final(self).input().span.spec_valid() ==> c.spans()[0].from < final(self).input().span.from
            },
    {
        proof {
            use_type_invariant(self.regex);
            lemma_find_sound(self.regex.program(), self.input, self.regex.groups());
        }
        if !self.input.span.valid() {
            return None;
        }
        let mut spans = invalid_spans(self.regex.capture_count);
        let found = self.regex.engine.exec(self.input, &mut self.state, &mut spans);
        if !found {
            return None;
        }
        proof {
            let caps = find(self.regex.program(), self.input, self.regex.groups())->0;
            assert(spans@ =~= caps);
        }
        let first = spans[0];
        let result = Captures::new(self.input.subject, spans);
        self.input.span = next_span(self.input, first);
        Some(result)
    }

    /// Returns all the matches that are left, from left to right.
    pub fn collect(self) -> (r: Vec<Captures<'s>>)
        ensures
            r@.len() == captures_in(self.regex().program(), self.input(), self.regex().groups()).len(),
            forall|i: int|
                0 <= i < r@.len() ==> {
                    &&& (#[trigger] r@[i]).subject() == self.input().subject
                    &&& r@[i].spans() == captures_in(
                        self.regex().program(),
                        self.input(),
                        self.regex().groups(),
                    )[i]
                },
            forall|i: int, j: int|
                0 <= i < j < r@.len() ==> (#[trigger] r@[i]).spans()[0].from < (#[trigger] r@[j]).spans()[0].from,
    {
        let ghost prog = self.regex().program();
        let ghost groups = self.regex().groups();
        let ghost first = self.input();
        proof {
            use_type_invariant(self.regex);
        }
        let mut all = self;
        let mut out: Vec<Captures<'s>> = Vec::new();
        let ghost mut found: Seq<Seq<Span>> = Seq::empty();
        proof {
            assert(found + captures_in(prog, first, groups) =~= captures_in(prog, first, groups));
        }
        loop
            invariant
                groups >= 1,
                all.regex().program() == prog,
                all.regex().groups() == groups,
                all.input().subject == first.subject,
                found.len() == out@.len(),
                forall|i: int|
                    0 <= i < out@.len() ==> {
                        &&& (#[trigger] out@[i]).subject() == first.subject
                        &&& out@[i].spans() == found[i]
                    },
                captures_in(prog, first, groups) == found + captures_in(prog, all.input(), groups),
                forall|i: int, j: int|
                    0 <= i < j < out@.len() ==> (#[trigger] out@[i]).spans()[0].from < (#[trigger] out@[j]).spans()[0].from,
                forall|i: int|
                    0 <= i < out@.len() && all.input().span.spec_valid() ==> (#[trigger] out@[i]).spans()[0].from
                        < all.input().span.from,
            ensures
                found.len() == out@.len(),
                forall|i: int|
                    0 <= i < out@.len() ==> {
                        &&& (#[trigger] out@[i]).subject() == first.subject
                        &&& out@[i].spans() == found[i]
                    },
                captures_in(prog, first, groups) == found,
                forall|i: int, j: int|
                    0 <= i < j < out@.len() ==> (#[trigger] out@[i]).spans()[0].from < (#[trigger] out@[j]).spans()[0].from,
            decreases offsets_left(all.input()),
        {
            let ghost before = all.input();
            match all.next() {
                Some(c) => {
                    let ghost caps = c.spans();
                    out.push(c);
                    proof {
                        let rest = captures_in(prog, all.input(), groups);
                        assert(captures_in(prog, before, groups) == seq![caps] + rest);
                        assert(found + (seq![caps] + rest) =~= found.push(caps) + rest);
                        found = found.push(caps);
                    }
                },
                None => {
                    proof {
                        assert(captures_in(prog, before, groups) =~= Seq::<Seq<Span>>::empty());
                        assert(found + Seq::<Seq<Span>>::empty() =~= found);
                    }
                    break;
                },
            }
        }
        out
    }
}

} // verus!
