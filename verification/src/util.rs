//! Types shared by every engine: characters, spans, inputs, matches and
//! interval arithmetic over characters.

use vstd::prelude::*;
use vstd::std_specs::convert::FromSpecImpl;
use vstd::utf8::*;
use vstd::string::StringSliceAdditionalSpecFns;
use core::ops::Range;
use crate::scan::{boundary_at_or_before, decode_char, lemma_boundary_step, prev_char, width_at};

verus! {

/// A span in a `&str`: `from` is the first byte offset, `to` the offset one
/// past the last byte. A span with `from > to` denotes "no match".
#[derive(Copy, Debug, Clone, PartialEq, Eq, Structural)]
pub struct Span {
    pub from: usize,
    pub to: usize,
}

impl Span {
    /// True when the span covers no byte.
    pub open spec fn spec_empty(&self) -> bool {
        self.from == self.to
    }

    /// True when the span denotes a range of bytes.
    pub open spec fn spec_valid(&self) -> bool {
        self.from <= self.to
    }

    /// The canonical span that denotes "no match".
    pub open spec fn spec_invalid() -> Span {
        Span { from: usize::MAX, to: 0 }
    }

    /// Returns true if the span is empty (`from == to`).
    #[verifier::when_used_as_spec(spec_empty)]
    pub fn empty(&self) -> (r: bool)
        ensures
            r == self.spec_empty(),
    {
        self.from == self.to
    }

    /// Returns true if the span is valid (`from <= to`).
    /// Invalid spans are used to denote a group that did not take part.
    #[verifier::when_used_as_spec(spec_valid)]
    pub fn valid(&self) -> (r: bool)
        ensures
            r == self.spec_valid(),
    {
        self.from <= self.to
    }

    /// Returns a span that is always considered invalid.
    #[verifier::when_used_as_spec(spec_invalid)]
    pub fn invalid() -> (r: Span)
        ensures
            r == Span::spec_invalid(),
            !r.spec_valid(),
    {
        Span { from: usize::MAX, to: 0 }
    }
}

impl From<Range<usize>> for Span {
    fn from(value: Range<usize>) -> (r: Self) {
        Span { from: value.start, to: value.end }
    }
}

impl FromSpecImpl<Range<usize>> for Span {
    open spec fn obeys_from_spec() -> bool {
        true
    }

    open spec fn from_spec(value: Range<usize>) -> Self {
        Span { from: value.start, to: value.end }
    }
}

impl From<Span> for Range<usize> {
    fn from(val: Span) -> (r: Self) {
        val.from..val.to
    }
}

impl FromSpecImpl<Span> for Range<usize> {
    open spec fn obeys_from_spec() -> bool {
        true
    }

    open spec fn from_spec(val: Span) -> Self {
        Range { start: val.from, end: val.to }
    }
}

/// The value of the sentinel character: larger than every code point.
pub const INPUT_BOUND: u32 = 0xFFFF_FFFF;

/// A single Unicode code point, or the sentinel that stands for the virtual
/// character before the first byte and after the last byte of an input.
#[derive(Copy, Clone, Debug, Eq, PartialEq, PartialOrd, Ord, Hash, Structural)]
pub struct Char(pub u32);

impl Char {
    /// The sentinel as a specification value.
    pub open spec fn spec_input_bound() -> Char {
        Char(INPUT_BOUND)
    }

    /// Sentinel value that delimits the beginning and the end of an input.
    /// It is never equal to a code point.
    #[verifier::when_used_as_spec(spec_input_bound)]
    pub fn input_bound() -> (r: Char)
        ensures
            r == Char(INPUT_BOUND),
    {
        Char(INPUT_BOUND)
    }

    /// Returns the bounds of the range of every `Char`, the sentinel included.
    pub fn all() -> (r: (Char, Char))
        ensures
            r == (Char(0), Char(INPUT_BOUND)),
    {
        (Char(0), Char(INPUT_BOUND))
    }

    /// Returns the bounds of the range of the valid Unicode code points.
    pub fn all_valid() -> (r: (Char, Char))
        ensures
            r == (Char(0), Char(0x10FFFF)),
    {
        (Char(0), Char(0x10FFFF))
    }

    /// The sentinel differs from every code point, and every code point
    /// lies in the range that `all_valid` returns.
    pub proof fn lemma_code_points(c: char)
        ensures
            Char(c as u32) != Char::spec_input_bound(),
            0 <= Char(c as u32).0 <= 0x10FFFF,
    {
        char_is_scalar(c);
    }
}

impl From<char> for Char {
    fn from(value: char) -> (r: Self) {
        Char(value as u32)
    }
}

impl FromSpecImpl<char> for Char {
    open spec fn obeys_from_spec() -> bool {
        true
    }

    open spec fn from_spec(value: char) -> Self {
        Char(value as u32)
    }
}

/// Bytes are used to match byte classes: a byte stands for the code point
/// with the same value.
impl From<u8> for Char {
    fn from(value: u8) -> (r: Self) {
        Char(value as u32)
    }
}

impl FromSpecImpl<u8> for Char {
    open spec fn obeys_from_spec() -> bool {
        true
    }

    open spec fn from_spec(value: u8) -> Self {
        Char(value as u32)
    }
}

impl From<Char> for u32 {
    fn from(value: Char) -> (r: Self) {
        value.0
    }
}

impl FromSpecImpl<Char> for u32 {
    open spec fn obeys_from_spec() -> bool {
        true
    }

    open spec fn from_spec(value: Char) -> Self {
        value.0
    }
}

/// The same 32 bits read as a signed number, as machine code encodes
/// 32-bit immediates.
impl From<Char> for i32 {
    fn from(value: Char) -> (r: Self) {
        value.0 as i32
    }
}

impl FromSpecImpl<Char> for i32 {
    open spec fn obeys_from_spec() -> bool {
        true
    }

    open spec fn from_spec(value: Char) -> Self {
        value.0 as i32
    }
}

/// The parameter of the matching methods: the text to search, the part of it
/// to search in, and how to search.
///
/// - `subject`: the string to search in.
/// - `span`: the range of `subject` to search (by default all of it).
/// - `anchored`: a match must start where `span` starts (by default false).
/// - `first_match`: the search may stop at the first match found, which
///   need not be the longest of the leftmost ones (by default false).
#[derive(Clone, Copy, Debug)]
pub struct Input<'s> {
    pub subject: &'s str,
    pub span: Span,
    pub anchored: bool,
    pub first_match: bool,
}

impl<'s> Input<'s> {
    /// True when the span is valid and both its ends are character
    /// boundaries of the subject.
    pub open spec fn spec_valid(&self) -> bool {
        &&& self.span.spec_valid()
        &&& is_char_boundary(self.subject.spec_bytes(), self.span.from as int)
        &&& is_char_boundary(self.subject.spec_bytes(), self.span.to as int)
    }

    /// An unanchored search for the leftmost match in the whole of
    /// `subject`.
    pub fn new(subject: &'s str) -> (r: Self)
        ensures
            r.subject == subject,
            r.span.from == 0,
            r.span.to == subject.spec_bytes().len(),
            !r.anchored,
            !r.first_match,
            r.spec_valid(),
    {
        proof {
            encode_utf8_valid_utf8(subject@);
            is_char_boundary_start_end_of_seq(subject.spec_bytes());
        }
        let len = subject.as_bytes().len();
        Input { subject, span: Span { from: 0, to: len }, anchored: false, first_match: false }
    }

    /// Sets whether the search may stop at the first match found.
    pub fn first_match(self, value: bool) -> (r: Self)
        ensures
            r == (Input { first_match: value, ..self }),
    {
        Input { first_match: value, ..self }
    }

    /// Sets whether a match must start where the span starts.
    pub fn anchored(self, value: bool) -> (r: Self)
        ensures
            r == (Input { anchored: value, ..self }),
    {
        Input { anchored: value, ..self }
    }

    /// Sets the part of the subject to search in.
    pub fn span(self, value: Span) -> (r: Self)
        ensures
            r == (Input { span: value, ..self }),
    {
        Input { span: value, ..self }
    }

    /// Sets where the search starts.
    pub fn from(self, value: usize) -> (r: Self)
        ensures
            r == (Input { span: Span { from: value, to: self.span.to }, ..self }),
    {
        Input { span: Span { from: value, to: self.span.to }, ..self }
    }

    /// Sets where the search ends.
    pub fn to(self, value: usize) -> (r: Self)
        ensures
            r == (Input { span: Span { from: self.span.from, to: value }, ..self }),
    {
        Input { span: Span { from: self.span.from, to: value }, ..self }
    }

    /// Returns true if the span is valid and both its ends are character
    /// boundaries of the subject.
    #[verifier::when_used_as_spec(spec_valid)]
    pub fn valid(&self) -> (r: bool)
        ensures
            r == self.spec_valid(),
    {
        self.span.valid() && self.subject.is_char_boundary(self.span.from)
            && self.subject.is_char_boundary(self.span.to)
    }
}

impl<'s> From<&'s str> for Input<'s> {
    fn from(subject: &'s str) -> (r: Self) {
        let len = subject.as_bytes().len();
        Input { subject, span: Span { from: 0, to: len }, anchored: false, first_match: false }
    }
}

impl<'s> FromSpecImpl<&'s str> for Input<'s> {
    open spec fn obeys_from_spec() -> bool {
        true
    }

    open spec fn from_spec(subject: &'s str) -> Self {
        Input {
            subject,
            span: Span { from: 0, to: subject.spec_bytes().len() as usize },
            anchored: false,
            first_match: false,
        }
    }
}

/// Given a character boundary of a string, returns the character that ends
/// there: the sentinel at offset 0.
///
/// The assertions of a pattern look at the character before the current
/// one, so a search that starts inside a string must first find it.
pub fn find_prev_char(s: &str, to: usize) -> (r: Char)
    requires
        is_char_boundary(s.spec_bytes(), to as int),
    ensures
        r == prev_char(s.spec_bytes(), to as int),
{
    if to == 0 {
        return Char::input_bound();
    }
    let ghost bytes = s.spec_bytes();
    proof {
        encode_utf8_valid_utf8(s@);
        is_char_boundary_start_end_of_seq(bytes);
        if to > bytes.len() {
            assert(!is_char_boundary(bytes, to as int));
        }
    }
    let mut from = to - 1;
    while !s.is_char_boundary(from)
        invariant
            from < to <= bytes.len(),
            bytes == s.spec_bytes(),
            valid_utf8(bytes),
            is_char_boundary(bytes, 0),
            boundary_at_or_before(bytes, to - 1) == boundary_at_or_before(bytes, from as int),
        decreases from,
    {
        from -= 1;
    }
    proof {
        lemma_boundary_step(bytes, from as int);
    }
    let (c, _) = decode_char(s.as_bytes(), from);
    c
}

/// A match: the bounds of the overall match within the subject. The span
/// is valid, and both its ends are character boundaries of the subject.
#[derive(Copy, Debug, Clone)]
pub struct Match<'s> {
    pub subject: &'s str,
    pub span: Span,
}

impl<'s> Match<'s> {
    /// True when the span is valid and both its ends are character
    /// boundaries of the subject.
    pub open spec fn wf(&self) -> bool {
        &&& self.span.spec_valid()
        &&& is_char_boundary(self.subject.spec_bytes(), self.span.from as int)
        &&& is_char_boundary(self.subject.spec_bytes(), self.span.to as int)
    }

    /// Where the next match that does not overlap this one may start: the
    /// end of the match, or one code point further when the match is empty,
    /// or past the end of the subject when an empty match ends it.
    pub open spec fn spec_next_match_start(&self) -> int {
        if self.span.spec_empty() {
            if self.span.from == self.subject.spec_bytes().len() {
                self.span.from + 1
            } else {
                self.span.from + width_at(self.subject.spec_bytes(), self.span.from as int)
            }
        } else {
            self.span.to as int
        }
    }

    pub fn new(subject: &'s str, span: Span) -> (r: Self)
        ensures
            r.subject == subject,
            r.span == span,
    {
        Match { subject, span }
    }

    /// Returns the matched substring.
    pub fn as_str(&self) -> (r: &'s str)
        requires
            self.wf(),
        ensures
            r.spec_bytes() == self.subject.spec_bytes().subrange(
                self.span.from as int,
                self.span.to as int,
            ),
    {
        let ghost bytes = self.subject.spec_bytes();
        proof {
            encode_utf8_valid_utf8(self.subject@);
            if self.span.to > bytes.len() {
                assert(!is_char_boundary(bytes, self.span.to as int));
            }
        }
        let (head, _) = self.subject.split_at(self.span.to);
        proof {
            let prefix = bytes.subrange(0, self.span.to as int);
            valid_utf8_split(bytes, self.span.to as int);
            assert(head.spec_bytes() == prefix);
            if self.span.from < self.span.to {
                is_char_boundary_iff_not_is_continuation_byte(bytes, self.span.from as int);
                is_char_boundary_iff_not_is_continuation_byte(prefix, self.span.from as int);
            } else {
                is_char_boundary_start_end_of_seq(prefix);
            }
        }
        let (_, mid) = head.split_at(self.span.from);
        proof {
            assert(mid.spec_bytes() =~= bytes.subrange(self.span.from as int, self.span.to as int));
        }
        mid
    }

    /// The byte offset where the match starts.
    pub fn start(&self) -> (r: usize)
        ensures
            r == self.span.from,
    {
        self.span.from
    }

    /// The byte offset where the match ends.
    pub fn end(&self) -> (r: usize)
        ensures
            r == self.span.to,
    {
        self.span.to
    }

    /// Returns the byte offset where the next match that does not overlap
    /// this one may start. After an empty match it lies at least one code
    /// point further, so that a search for all matches always advances.
    pub fn next_match_start(&self) -> (r: usize)
        requires
            self.wf(),
            self.span.from < usize::MAX,
        ensures
            r == self.spec_next_match_start(),
            r > self.span.from,
            self.span.to <= r,
    {
        if self.span.empty() {
            let ghost bytes = self.subject.spec_bytes();
            proof {
                encode_utf8_valid_utf8(self.subject@);
                if self.span.from > bytes.len() {
                    assert(!is_char_boundary(bytes, self.span.from as int));
                }
            }
            if self.span.from == self.subject.as_bytes().len() {
                self.span.from + 1
            } else {
                proof {
                    lemma_boundary_step(bytes, self.span.from as int);
                }
                let b = self.subject.as_bytes()[self.span.from];
                assert(b == crate::scan::suffix(bytes, self.span.from as int)[0]);
                if b < 0x80 {
                    self.span.from + 1
                } else if b < 0xE0 {
                    self.span.from + 2
                } else if b < 0xF0 {
                    self.span.from + 3
                } else {
                    self.span.from + 4
                }
            }
        } else {
            self.span.to
        }
    }
}

/// A match with its groups: the bounds, if any, of every group of the
/// pattern. Group 0 is the overall match.
#[derive(Debug, Clone)]
pub struct Captures<'s> {
    subject: &'s str,
    spans: Vec<Span>,
}

impl<'s> Captures<'s> {
    /// The subject that was searched.
    pub closed spec fn subject(&self) -> &'s str {
        self.subject
    }

    /// The span of every group; an invalid span stands for a group that
    /// took no part in the match.
    pub closed spec fn spans(&self) -> Seq<Span> {
        self.spans@
    }

    /// Returns the match of the group with the given index, or `None` if
    /// there is no such group or it took no part in the match.
    pub fn get(&self, group_index: usize) -> (r: Option<Match<'s>>)
        ensures
            r is Some <==> group_index < self.spans().len() && self.spans()[group_index as int].spec_valid(),
            r matches Some(m) ==> m.subject == self.subject() && m.span == self.spans()[group_index as int],
    {
        if group_index >= self.spans.len() {
            return None;
        }
        let span = self.spans[group_index];
        if !span.valid() {
            return None;
        }
        Some(Match { subject: self.subject, span })
    }

    /// Returns the overall match (group 0).
    pub fn group0(&self) -> (r: Match<'s>)
        requires
            self.spans().len() > 0,
            self.spans()[0].spec_valid(),
        ensures
            r.subject == self.subject(),
            r.span == self.spans()[0],
    {
        Match { subject: self.subject, span: self.spans[0] }
    }

    pub fn new(subject: &'s str, spans: Vec<Span>) -> (r: Self)
        ensures
            r.subject() == subject,
            r.spans() == spans@,
    {
        Captures { subject, spans }
    }

    /// Returns the number of groups, group 0 included.
    pub fn group_len(&self) -> (r: usize)
        ensures
            r == self.spans().len(),
    {
        self.spans.len()
    }
}

/// An interval of characters; both bounds are inclusive. An interval whose
/// lower bound is greater than its upper bound is empty.
#[derive(Debug, Clone, Copy, PartialEq, Eq, Structural)]
pub struct Interval(pub Char, pub Char);

impl Interval {
    /// The characters of the interval.
    pub open spec fn points(self) -> Set<u32> {
        Set::new(|x: u32| self.0.0 <= x <= self.1.0)
    }

    /// True when the interval holds no character.
    pub open spec fn spec_is_empty(&self) -> bool {
        self.0.0 > self.1.0
    }

    /// An interval that holds no character.
    pub fn empty() -> (r: Interval)
        ensures
            r == Interval(Char(1), Char(0)),
            r.spec_is_empty(),
    {
        Interval(Char(1), Char(0))
    }

    /// The interval of every character, the sentinel included.
    pub fn all() -> (r: Interval)
        ensures
            r == Interval(Char(0), Char(INPUT_BOUND)),
            forall|x: u32| r.points().contains(x),
    {
        Interval(Char(0), Char(INPUT_BOUND))
    }

    /// The interval of the valid code points.
    pub fn all_valid() -> (r: Interval)
        ensures
            r == Interval(Char(0), Char(0x10FFFF)),
    {
        Interval(Char(0), Char(0x10FFFF))
    }

    pub fn new(from: Char, to: Char) -> (r: Self)
        ensures
            r == Interval(from, to),
    {
        Interval(from, to)
    }

    /// Returns true when the interval holds no character.
    #[verifier::when_used_as_spec(spec_is_empty)]
    pub fn is_empty(&self) -> (r: bool)
        ensures
            r == self.spec_is_empty(),
            r <==> self.points() == Set::<u32>::empty(),
    {
        proof {
            if self.0.0 <= self.1.0 {
                assert(self.points().contains(self.0.0));
            } else {
                assert(self.points() =~= Set::<u32>::empty());
            }
        }
        self.0.0 > self.1.0
    }

    /// Returns the intersection of `self` and `other`: the interval from
    /// the greater of the two lower bounds to the lesser of the two upper
    /// bounds.
    pub fn intersect(&self, other: &Interval) -> (r: Interval)
        ensures
            r.0 == (if self.0.0 >= other.0.0 { self.0 } else { other.0 }),
            r.1 == (if self.1.0 <= other.1.0 { self.1 } else { other.1 }),
            r.points() == self.points().intersect(other.points()),
    {
        let start = if self.0.0 >= other.0.0 {
            self.0
        } else {
            other.0
        };
        let end = if self.1.0 <= other.1.0 {
            self.1
        } else {
            other.1
        };
        let r = Interval(start, end);
        proof {
            assert(r.points() =~= self.points().intersect(other.points()));
        }
        r
    }

    /// What `substract` returns: `self` and an empty interval when the two
    /// do not overlap, else what of `self` lies before `other` and what of
    /// it lies behind.
    pub open spec fn spec_substract(self, other: Interval) -> (Interval, Interval) {
        let none = Interval(Char(1), Char(0));
        if other.1.0 < self.0.0 || other.0.0 > self.1.0 {
            (self, none)
        } else {
            (
                if other.0.0 > self.0.0 {
                    Interval(self.0, Char((other.0.0 - 1) as u32))
                } else {
                    none
                },
                if other.1.0 < self.1.0 {
                    Interval(Char((other.1.0 + 1) as u32), self.1)
                } else {
                    none
                },
            )
        }
    }

    /// Returns `self` without `other`. Since `other` may lie strictly
    /// inside `self`, this gives two intervals: either of them may be
    /// empty.
    ///
    /// Where `other` is not empty, the two hold together exactly the
    /// characters of `self` that are not in `other`.
    pub fn substract(&self, other: &Interval) -> (r: (Interval, Interval))
        ensures
            r == self.spec_substract(*other),
            !other.spec_is_empty() ==> r.0.points().union(r.1.points()) == self.points().difference(
                other.points(),
            ),
            !other.spec_is_empty() ==> r.0.points().disjoint(r.1.points()),
    {
        if other.1.0 < self.0.0 || other.0.0 > self.1.0 {
            let r = (*self, Interval::empty());
            proof {
                assert(r.0.points().union(r.1.points()) =~= self.points().difference(other.points()));
            }
            return r;
        }
        let left = if other.0.0 > self.0.0 {
            Interval(self.0, Char(other.0.0 - 1))
        } else {
            Interval::empty()
        };
        let right = if other.1.0 < self.1.0 {
            Interval(Char(other.1.0 + 1), self.1)
        } else {
            Interval::empty()
        };
        proof {
            if !other.spec_is_empty() {
                assert(left.points().union(right.points()) =~= self.points().difference(other.points()));
            }
        }
        (left, right)
    }
}

/// True when `x` lies in the interval at index `k` of `s`.
pub open spec fn holds(s: Seq<Interval>, k: int, x: u32) -> bool {
    0 <= k < s.len() && s[k].0.0 <= x <= s[k].1.0
}

/// True when `x` lies in one of the intervals of `s`.
pub open spec fn member(s: Seq<Interval>, x: u32) -> bool {
    exists|k: int| holds(s, k, x)
}

/// True when no interval of `s` is empty and each ends before the next
/// starts.
pub open spec fn sorted(s: Seq<Interval>) -> bool {
    &&& forall|k: int| 0 <= k < s.len() ==> (#[trigger] s[k]).0.0 <= s[k].1.0
    &&& forall|k1: int, k2: int|
        0 <= k1 < k2 < s.len() ==> (#[trigger] s[k1]).1.0 < (#[trigger] s[k2]).0.0
}

/// A character lies in a list with one more interval when it lies in the
/// list or in that interval.
pub proof fn lemma_member_push(s: Seq<Interval>, iv: Interval, x: u32)
    ensures
        member(s.push(iv), x) <==> member(s, x) || iv.0.0 <= x <= iv.1.0,
{
    if member(s.push(iv), x) {
        let k = choose|k: int| holds(s.push(iv), k, x);
        if k < s.len() {
            assert(holds(s, k, x));
        }
    }
    if member(s, x) {
        let k = choose|k: int| holds(s, k, x);
        assert(holds(s.push(iv), k, x));
    }
    if iv.0.0 <= x <= iv.1.0 {
        assert(holds(s.push(iv), s.len() as int, x));
    }
}

/// In a sorted list, a character that lies behind every interval before
/// index `j` and before the interval at `j`, if there is one, lies in no
/// interval.
pub proof fn lemma_not_member(s: Seq<Interval>, j: int, x: u32)
    requires
        sorted(s),
        0 <= j <= s.len(),
        forall|k: int| 0 <= k < j ==> (#[trigger] s[k]).1.0 < x,
        j < s.len() ==> x < s[j].0.0,
    ensures
        !member(s, x),
{
    if member(s, x) {
        let k = choose|k: int| holds(s, k, x);
        if k > j {
            assert(s[j].1.0 < s[k].0.0);
        }
    }
}

/// In a sorted list, a character that lies behind every interval before
/// index `j` and at most at the end of the interval at `j` lies in the
/// list exactly if it lies in the interval at `j`.
pub proof fn lemma_member_at(s: Seq<Interval>, j: int, x: u32)
    requires
        sorted(s),
        0 <= j < s.len(),
        forall|k: int| 0 <= k < j ==> (#[trigger] s[k]).1.0 < x,
        x <= s[j].1.0,
    ensures
        member(s, x) <==> s[j].0.0 <= x,
{
    if member(s, x) {
        let k = choose|k: int| holds(s, k, x);
        if k > j {
            assert(s[j].1.0 < s[k].0.0);
        }
    }
    if s[j].0.0 <= x {
        assert(holds(s, j, x));
    }
}

/// The interval from `lo` to `hi`.
pub open spec fn span_of(lo: int, hi: int) -> Interval {
    Interval(Char(lo as u32), Char(hi as u32))
}

/// What the characters from `lo` to `hi` have in common with each of the
/// intervals of `b` from index `j` on, in their order: for each interval
/// that overlaps them, the part that lies in both.
pub open spec fn common(lo: int, hi: int, b: Seq<Interval>, j: int) -> Seq<Interval>
    decreases b.len() - j,
{
    if j < 0 || j >= b.len() {
        Seq::empty()
    } else {
        let from = if lo >= b[j].0.0 {
            lo
        } else {
            b[j].0.0 as int
        };
        let to = if hi <= b[j].1.0 {
            hi
        } else {
            b[j].1.0 as int
        };
        (if from <= to {
            seq![span_of(from, to)]
        } else {
            Seq::empty()
        }) + common(lo, hi, b, j + 1)
    }
}

/// What each of the intervals of `a` from index `i` on has in common with
/// the intervals of `b`.
pub open spec fn common_from(a: Seq<Interval>, b: Seq<Interval>, i: int) -> Seq<Interval>
    decreases a.len() - i,
{
    if i < 0 || i >= a.len() {
        Seq::empty()
    } else {
        common(a[i].0.0 as int, a[i].1.0 as int, b, 0) + common_from(a, b, i + 1)
    }
}

/// The list of what two lists have in common: no interval of it is cut
/// anywhere but at a bound of an interval of `a` or of `b`.
pub open spec fn spec_intersection(a: Seq<Interval>, b: Seq<Interval>) -> Seq<Interval> {
    common_from(a, b, 0)
}

/// What is left of the characters from `lo` to `hi` without the intervals
/// of `b` from index `j` on: they are cut where an interval of `b` starts
/// or ends among them, and nowhere else.
pub open spec fn minus(lo: int, hi: int, b: Seq<Interval>, j: int) -> Seq<Interval>
    decreases b.len() - j,
{
    if lo > hi {
        Seq::empty()
    } else if j < 0 || j >= b.len() {
        seq![span_of(lo, hi)]
    } else if b[j].1.0 < lo {
        minus(lo, hi, b, j + 1)
    } else if b[j].0.0 > hi {
        seq![span_of(lo, hi)]
    } else {
        (if b[j].0.0 > lo {
            seq![span_of(lo, b[j].0.0 - 1)]
        } else {
            Seq::empty()
        }) + (if b[j].1.0 < hi {
            minus(b[j].1.0 + 1, hi, b, j + 1)
        } else {
            Seq::empty()
        })
    }
}

/// What is left of each of the intervals of `a` from index `i` on without
/// the intervals of `b`.
pub open spec fn minus_from(a: Seq<Interval>, b: Seq<Interval>, i: int) -> Seq<Interval>
    decreases a.len() - i,
{
    if i < 0 || i >= a.len() {
        Seq::empty()
    } else {
        minus(a[i].0.0 as int, a[i].1.0 as int, b, 0) + minus_from(a, b, i + 1)
    }
}

/// The list of what is left of `a` without `b`: an interval of `a` that no
/// interval of `b` overlaps stays as it is, and no interval is cut anywhere
/// but at a bound of an interval of `b`.
pub open spec fn spec_difference(a: Seq<Interval>, b: Seq<Interval>) -> Seq<Interval> {
    minus_from(a, b, 0)
}

/// The intervals of `b` that end before `lo` take nothing from the
/// characters from `lo` on and have nothing in common with them.
pub proof fn lemma_skip_before(lo: int, hi: int, b: Seq<Interval>, from: int, j: int)
    requires
        0 <= from <= j <= b.len(),
        forall|k: int| from <= k < j ==> (#[trigger] b[k]).1.0 < lo,
    ensures
        minus(lo, hi, b, from) == minus(lo, hi, b, j),
        common(lo, hi, b, from) == common(lo, hi, b, j),
    decreases j - from,
{
    if from < j {
        assert(b[from].1.0 < lo);
        lemma_skip_before(lo, hi, b, from + 1, j);
        assert(Seq::<Interval>::empty() + common(lo, hi, b, from + 1) =~= common(lo, hi, b, from + 1));
    }
}

/// The intervals of `b` that start behind `hi` have nothing in common with
/// the characters up to `hi`.
pub proof fn lemma_none_behind(lo: int, hi: int, b: Seq<Interval>, j: int)
    requires
        0 <= j,
        forall|k: int| j <= k < b.len() ==> (#[trigger] b[k]).0.0 > hi,
    ensures
        common(lo, hi, b, j) == Seq::<Interval>::empty(),
    decreases b.len() - j,
{
    if j < b.len() {
        assert(b[j].0.0 > hi);
        lemma_none_behind(lo, hi, b, j + 1);
        assert(Seq::<Interval>::empty() + Seq::<Interval>::empty() =~= Seq::<Interval>::empty());
    }
}

/// The intervals of a sorted list `a` from index `i` on have nothing in
/// common with a list whose intervals all end before the first of them.
pub proof fn lemma_common_from_none(a: Seq<Interval>, b: Seq<Interval>, i: int)
    requires
        sorted(a),
        0 <= i,
        i < a.len() ==> forall|k: int| 0 <= k < b.len() ==> (#[trigger] b[k]).1.0 < a[i].0.0,
    ensures
        common_from(a, b, i) == Seq::<Interval>::empty(),
    decreases a.len() - i,
{
    if i < a.len() {
        lemma_skip_before(a[i].0.0 as int, a[i].1.0 as int, b, 0, b.len() as int);
        if i + 1 < a.len() {
            assert(a[i].1.0 < a[i + 1].0.0);
            assert(a[i].0.0 <= a[i].1.0);
        }
        lemma_common_from_none(a, b, i + 1);
        assert(Seq::<Interval>::empty() + Seq::<Interval>::empty() =~= Seq::<Interval>::empty());
    }
}

/// Without anything, a list of intervals that are not empty stays as it
/// is, in its order.
pub proof fn lemma_difference_of_nothing(a: Seq<Interval>, i: int)
    requires
        0 <= i <= a.len(),
        forall|k: int| 0 <= k < a.len() ==> (#[trigger] a[k]).0.0 <= a[k].1.0,
    ensures
        minus_from(a, Seq::empty(), i) == a.subrange(i, a.len() as int),
        i == 0 ==> spec_difference(a, Seq::empty()) == a,
    decreases a.len() - i,
{
    if i < a.len() {
        lemma_difference_of_nothing(a, i + 1);
        assert(a[i].0.0 <= a[i].1.0);
        assert(span_of(a[i].0.0 as int, a[i].1.0 as int) == a[i]);
        assert(seq![a[i]] + a.subrange(i + 1, a.len() as int) =~= a.subrange(i, a.len() as int));
    } else {
        assert(a.subrange(i, a.len() as int) =~= Seq::<Interval>::empty());
    }
    if i == 0 {
        assert(a.subrange(0, a.len() as int) =~= a);
    }
}

/// A list of intervals has nothing in common with nothing, and nothing is
/// left of nothing.
pub proof fn lemma_nothing(a: Seq<Interval>, i: int)
    requires
        0 <= i,
    ensures
        common_from(a, Seq::empty(), i) == Seq::<Interval>::empty(),
        spec_difference(Seq::empty(), a) == Seq::<Interval>::empty(),
    decreases a.len() - i,
{
    if i < a.len() {
        lemma_nothing(a, i + 1);
        assert(Seq::<Interval>::empty() + Seq::<Interval>::empty() =~= Seq::<Interval>::empty());
    }
}

/// Returns what two sorted lists have in common: for each interval of
/// `a`, in their order, the part that it shares with each interval of `b`
/// that overlaps it. The result is sorted and holds the characters that lie
/// in both lists.
pub fn intersection(a: &Vec<Interval>, b: &Vec<Interval>) -> (r: Vec<Interval>)
    requires
        sorted(a@),
        sorted(b@),
    ensures
        r@ == spec_intersection(a@, b@),
        sorted(r@),
        forall|x: u32| #[trigger] member(r@, x) <==> member(a@, x) && member(b@, x),
{
    let mut out: Vec<Interval> = Vec::new();
    let mut i: usize = 0;
    let mut j: usize = 0;
    let ghost mut cut: int = 0;
    proof {
        assert(out@ + common_from(a@, b@, 0) =~= common_from(a@, b@, 0));
        if a@.len() > 0 {
            assert(common(a@[0].0.0 as int, a@[0].1.0 as int, b@, 0) + common_from(a@, b@, 1) =~= common_from(
                a@,
                b@,
                0,
            ));
        }
    }
    while i < a.len() && j < b.len()
        invariant
            i <= a.len(),
            j <= b.len(),
            0 <= cut,
            i < a.len() ==> spec_intersection(a@, b@) == out@ + (common(
                a@[i as int].0.0 as int,
                a@[i as int].1.0 as int,
                b@,
                j as int,
            ) + common_from(a@, b@, i + 1)),
            i >= a.len() ==> spec_intersection(a@, b@) == out@,
            i < a.len() ==> forall|k: int| 0 <= k < j ==> (#[trigger] b@[k]).1.0 < a@[i as int].1.0,
            sorted(a@),
            sorted(b@),
            sorted(out@),
            forall|k: int| 0 <= k < out@.len() ==> (#[trigger] out@[k]).1.0 < cut,
            forall|k: int| 0 <= k < i ==> (#[trigger] a@[k]).1.0 < cut,
            forall|k: int| 0 <= k < j ==> (#[trigger] b@[k]).1.0 < cut,
            i < a.len() && j < b.len() ==> a@[i as int].0.0 >= cut || b@[j as int].0.0 >= cut,
            i < a.len() ==> a@[i as int].1.0 + 1 >= cut,
            j < b.len() ==> b@[j as int].1.0 + 1 >= cut,
            forall|x: u32| #[trigger] member(out@, x) <==> x < cut && member(a@, x) && member(b@, x),
        decreases a.len() - i + b.len() - j,
    {
        let lo = if a[i].0.0 >= b[j].0.0 {
            a[i].0.0
        } else {
            b[j].0.0
        };
        let hi = if a[i].1.0 <= b[j].1.0 {
            a[i].1.0
        } else {
            b[j].1.0
        };
        let ghost before = out@;
        let ghost old_cut = cut;
        if lo <= hi {
            out.push(Interval(Char(lo), Char(hi)));
        }
        proof {
            cut = hi + 1;
            assert forall|x: u32| #[trigger] member(out@, x) <==> x < cut && member(a@, x) && member(
                b@,
                x,
            ) by {
                if lo <= hi {
                    lemma_member_push(before, Interval(Char(lo), Char(hi)), x);
                }
                if old_cut <= x <= hi {
                    lemma_member_at(a@, i as int, x);
                    lemma_member_at(b@, j as int, x);
                }
            }
        }
        proof {
            let alo = a@[i as int].0.0 as int;
            let ahi = a@[i as int].1.0 as int;
            let piece = if lo <= hi {
                seq![span_of(lo as int, hi as int)]
            } else {
                Seq::<Interval>::empty()
            };
            let later = common(alo, ahi, b@, j + 1);
            let rest = common_from(a@, b@, i + 1);
            assert(common(alo, ahi, b@, j as int) == piece + later);
            assert(out@ == before + piece);
            assert(before + ((piece + later) + rest) =~= (before + piece) + (later + rest));
            if ahi <= b@[j as int].1.0 {
                assert forall|k: int| j + 1 <= k < b@.len() implies (#[trigger] b@[k]).0.0 > ahi by {
                    assert(b@[j as int].1.0 < b@[k].0.0);
                }
                lemma_none_behind(alo, ahi, b@, j + 1);
                assert(out@ + (later + rest) =~= out@ + rest);
                if i + 1 < a@.len() {
                    let nlo = a@[i + 1].0.0 as int;
                    let nhi = a@[i + 1].1.0 as int;
                    assert(a@[i as int].1.0 < a@[i + 1].0.0);
                    assert(a@[i + 1].0.0 <= a@[i + 1].1.0);
                    lemma_skip_before(nlo, nhi, b@, 0, j as int);
                    assert(rest == common(nlo, nhi, b@, 0) + common_from(a@, b@, i + 2));
                } else {
                    assert(rest =~= Seq::<Interval>::empty());
                    assert(out@ + rest =~= out@);
                }
            }
        }
        if a[i].1.0 <= b[j].1.0 {
            i += 1;
        } else {
            j += 1;
        }
    }
    proof {
        if i < a@.len() {
            let alo = a@[i as int].0.0 as int;
            let ahi = a@[i as int].1.0 as int;
            assert(common(alo, ahi, b@, j as int) =~= Seq::<Interval>::empty());
            if i + 1 < a@.len() {
                assert(a@[i as int].1.0 < a@[i + 1].0.0);
            }
            lemma_common_from_none(a@, b@, i + 1);
            assert(out@ + (Seq::<Interval>::empty() + Seq::<Interval>::empty()) =~= out@);
        }
        assert forall|x: u32| #[trigger] member(out@, x) <==> member(a@, x) && member(b@, x) by {
            if x >= cut {
                if i >= a.len() {
                    lemma_not_member(a@, a@.len() as int, x);
                } else {
                    lemma_not_member(b@, b@.len() as int, x);
                }
            }
        }
    }
    out
}

/// Returns what is left of a sorted list without another: each interval
/// of `a`, in their order, cut where an interval of `b` starts or ends
/// inside it and nowhere else. The result is sorted and holds the
/// characters of `a` that do not lie in `b`.
pub fn difference(a: &Vec<Interval>, b: &Vec<Interval>) -> (r: Vec<Interval>)
    requires
        sorted(a@),
        sorted(b@),
    ensures
        r@ == spec_difference(a@, b@),
        sorted(r@),
        forall|x: u32| #[trigger] member(r@, x) <==> member(a@, x) && !member(b@, x),
{
    let mut out: Vec<Interval> = Vec::new();
    let mut i: usize = 0;
    let mut j: usize = 0;
    let ghost mut cut: int = 0;
    proof {
        assert(out@ + minus_from(a@, b@, 0) =~= minus_from(a@, b@, 0));
    }
    while i < a.len()
        invariant
            i <= a.len(),
            j <= b.len(),
            0 <= cut,
            spec_difference(a@, b@) == out@ + minus_from(a@, b@, i as int),
            i < a.len() ==> forall|k: int| 0 <= k < j ==> (#[trigger] b@[k]).1.0 < a@[i as int].0.0,
            sorted(a@),
            sorted(b@),
            sorted(out@),
            forall|k: int| 0 <= k < out@.len() ==> (#[trigger] out@[k]).1.0 < cut,
            forall|k: int| 0 <= k < i ==> (#[trigger] a@[k]).1.0 < cut,
            forall|k: int| 0 <= k < j ==> (#[trigger] b@[k]).1.0 < cut,
            i < a.len() ==> cut <= a@[i as int].0.0,
            forall|x: u32| #[trigger] member(out@, x) <==> x < cut && member(a@, x) && !member(b@, x),
        decreases a.len() - i,
    {
        let mut lo = a[i].0.0;
        let hi = a[i].1.0;
        let mut open = true;
        let ghost rest = minus_from(a@, b@, i + 1);
        proof {
            lemma_skip_before(lo as int, hi as int, b@, 0, j as int);
            assert(minus_from(a@, b@, i as int) == minus(lo as int, hi as int, b@, 0) + rest);
        }
        proof {
            let old_cut = cut;
            cut = lo as int;
            assert forall|x: u32| #[trigger] member(out@, x) <==> x < cut && member(a@, x) && !member(
                b@,
                x,
            ) by {
                if old_cut <= x < cut {
                    lemma_not_member(a@, i as int, x);
                }
            }
        }
        while open && j < b.len() && b[j].0.0 <= hi
            invariant
                i < a.len(),
                j <= b.len(),
                sorted(a@),
                sorted(b@),
                sorted(out@),
                hi == a@[i as int].1.0,
                a@[i as int].0.0 <= lo <= hi,
                rest == minus_from(a@, b@, i + 1),
                forall|k: int| 0 <= k < j ==> (#[trigger] b@[k]).1.0 < lo,
                open ==> spec_difference(a@, b@) == out@ + (minus(lo as int, hi as int, b@, j as int) + rest),
                !open ==> spec_difference(a@, b@) == out@ + rest,
                open ==> lo <= hi && cut == lo,
                !open ==> cut == hi + 1,
                forall|k: int| 0 <= k < out@.len() ==> (#[trigger] out@[k]).1.0 < cut,
                forall|k: int| 0 <= k < i ==> (#[trigger] a@[k]).1.0 < cut,
                forall|k: int| 0 <= k < j ==> (#[trigger] b@[k]).1.0 < cut,
                forall|x: u32| #[trigger] member(out@, x) <==> x < cut && member(a@, x) && !member(b@, x),
            decreases b.len() - j + (if open { 1int } else { 0int }),
        {
            if b[j].1.0 < lo {
                j += 1;
            } else {
                let ghost before = out@;
                let ghost old_cut = cut;
                let ghost old_lo = lo as int;
                let start = b[j].0.0;
                let end = b[j].1.0;
                if start > lo {
                    out.push(Interval(Char(lo), Char(start - 1)));
                }
                proof {
                    let piece = if start > old_lo {
                        seq![span_of(old_lo, start - 1)]
                    } else {
                        Seq::<Interval>::empty()
                    };
                    let later = if end < hi {
                        minus(end + 1, hi as int, b@, j + 1)
                    } else {
                        Seq::<Interval>::empty()
                    };
                    assert(minus(old_lo, hi as int, b@, j as int) == piece + later);
                    assert(out@ == before + piece);
                    assert(before + ((piece + later) + rest) =~= (before + piece) + (later + rest));
                    if end >= hi {
                        assert(out@ + (later + rest) =~= out@ + rest);
                    }
                }
                if end >= hi {
                    open = false;
                    proof {
                        cut = hi + 1;
                    }
                } else {
                    lo = end + 1;
                    proof {
                        cut = lo as int;
                    }
                    j += 1;
                }
                proof {
                    let jj = if open { j - 1 } else { j as int };
                    assert forall|x: u32| #[trigger] member(out@, x) <==> x < cut && member(a@, x)
                        && !member(b@, x) by {
                        if start > old_cut {
                            lemma_member_push(before, Interval(Char(old_cut as u32), Char((start - 1) as u32)), x);
                        }
                        if old_cut <= x < cut {
                            lemma_member_at(a@, i as int, x);
                            lemma_member_at(b@, jj, x);
                        }
                    }
                }
            }
        }
        if open {
            let ghost before = out@;
            let ghost old_cut = cut;
            out.push(Interval(Char(lo), Char(hi)));
            proof {
                let whole = seq![span_of(lo as int, hi as int)];
                assert(minus(lo as int, hi as int, b@, j as int) == whole);
                assert(out@ == before + whole);
                assert(before + (whole + rest) =~= (before + whole) + rest);
            }
            proof {
                cut = hi + 1;
                assert forall|x: u32| #[trigger] member(out@, x) <==> x < cut && member(a@, x) && !member(
                    b@,
                    x,
                ) by {
                    lemma_member_push(before, Interval(Char(lo), Char(hi)), x);
                    if old_cut <= x < cut {
                        lemma_member_at(a@, i as int, x);
                        lemma_not_member(b@, j as int, x);
                    }
                }
            }
        }
        proof {
            if i + 1 < a@.len() {
                assert(a@[i as int].1.0 < a@[i + 1].0.0);
            }
        }
        i += 1;
    }
    proof {
        assert(out@ + minus_from(a@, b@, i as int) =~= out@);
        assert forall|x: u32| #[trigger] member(out@, x) <==> member(a@, x) && !member(b@, x) by {
            if x >= cut {
                lemma_not_member(a@, a@.len() as int, x);
            }
        }
    }
    out
}

/// A set of characters: a sorted list of intervals that do not overlap.
#[derive(Debug, PartialEq, Eq)]
pub struct IntervalSet(pub Vec<Interval>);

impl IntervalSet {
    /// True when no interval is empty and each ends before the next starts.
    pub open spec fn wf(&self) -> bool {
        sorted(self.0@)
    }

    /// The characters of the set.
    pub open spec fn points(&self) -> Set<u32> {
        Set::new(|x: u32| member(self.0@, x))
    }

    pub fn new(intervals: Vec<Interval>) -> (r: Self)
        ensures
            r.0@ == intervals@,
    {
        IntervalSet(intervals)
    }

    /// Returns true when no interval is empty and each ends before the
    /// next starts.
    pub fn is_sorted(&self) -> (r: bool)
        ensures
            r == self.wf(),
    {
        let mut i: usize = 0;
        while i < self.0.len()
            invariant
                i <= self.0.len(),
                sorted(self.0@.subrange(0, i as int)),
            decreases self.0.len() - i,
        {
            let iv = self.0[i];
            if iv.0.0 > iv.1.0 {
                return false;
            }
            if i > 0 && self.0[i - 1].1.0 >= iv.0.0 {
                assert(!(self.0@[i - 1].1.0 < self.0@[i as int].0.0));
                return false;
            }
            proof {
                let before = self.0@.subrange(0, i as int);
                let after = self.0@.subrange(0, i + 1);
                assert forall|k1: int, k2: int| 0 <= k1 < k2 < after.len() implies (#[trigger] after[k1]).1.0
                    < (#[trigger] after[k2]).0.0 by {
                    if k2 < i {
                        assert(before[k1].1.0 < before[k2].0.0);
                    } else if k1 < i - 1 {
                        assert(before[k1].1.0 < before[i - 1].0.0);
                        assert(before[i - 1].0.0 <= before[i - 1].1.0);
                    }
                }
                assert forall|k: int| 0 <= k < after.len() implies (#[trigger] after[k]).0.0 <= after[k].1.0 by {
                    if k < i {
                        assert(before[k].0.0 <= before[k].1.0);
                    }
                }
            }
            i += 1;
        }
        assert(self.0@.subrange(0, i as int) =~= self.0@);
        true
    }

    /// Returns true when the set has no interval.
    pub fn is_empty(&self) -> (r: bool)
        ensures
            r == (self.0@.len() == 0),
            self.wf() ==> (r <==> self.points() == Set::<u32>::empty()),
    {
        proof {
            if self.0@.len() == 0 {
                assert(self.points() =~= Set::<u32>::empty());
            } else if self.wf() {
                assert(holds(self.0@, 0, self.0@[0].0.0));
                assert(self.points().contains(self.0@[0].0.0));
            }
        }
        self.0.len() == 0
    }

    /// Splits two sets in three: what lies in `self` only, what lies in
    /// both, and what lies in `other` only.
    ///
    /// An interval is cut only where an interval of the other set starts or
    /// ends inside it: an interval that the other set does not touch comes
    /// back whole, and without another set `self` comes back as it is.
    pub fn intersect_and_substract(self, other: IntervalSet) -> (r: (IntervalSet, IntervalSet, IntervalSet))
        requires
            self.wf(),
            other.wf(),
        ensures
            r.0.0@ == spec_difference(self.0@, other.0@),
            r.1.0@ == spec_intersection(self.0@, other.0@),
            r.2.0@ == spec_difference(other.0@, self.0@),
            other.0@.len() == 0 ==> r.0.0@ == self.0@ && r.1.0@.len() == 0 && r.2.0@.len() == 0,
            r.0.wf(),
            r.1.wf(),
            r.2.wf(),
            r.0.points() == self.points().difference(other.points()),
            r.1.points() == self.points().intersect(other.points()),
            r.2.points() == other.points().difference(self.points()),
    {
        proof {
            if other.0@.len() == 0 {
                assert(other.0@ =~= Seq::<Interval>::empty());
                lemma_difference_of_nothing(self.0@, 0);
                lemma_nothing(self.0@, 0);
            }
        }
        let self_only = difference(&self.0, &other.0);
        let both = intersection(&self.0, &other.0);
        let other_only = difference(&other.0, &self.0);
        let r = (IntervalSet(self_only), IntervalSet(both), IntervalSet(other_only));
        proof {
            assert(r.0.points() =~= self.points().difference(other.points()));
            assert(r.1.points() =~= self.points().intersect(other.points()));
            assert(r.2.points() =~= other.points().difference(self.points()));
        }
        r
    }
}

} // verus!
