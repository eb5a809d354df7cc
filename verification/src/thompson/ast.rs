//! The syntax tree of a pattern, as the compiler reads it.

use vstd::prelude::*;
use vstd::utf8::*;
use crate::scan::{decode_scalar, suffix};
use crate::util::Char;

verus! {

/// The zero-width assertions that the engines can test.
#[derive(Copy, Clone, Debug, PartialEq, Eq, Structural)]
pub enum Anchor {
    /// The start of the input.
    Start,
    /// The end of the input.
    End,
    /// The start of the input or of a line that `\n` ended.
    StartLF,
    /// The end of the input or of a line, before `\n`.
    EndLF,
    /// The start of the input or of a line that `\r\n`, `\n` or `\r` ended.
    StartCRLF,
    /// The end of the input or of a line, before `\r\n`, `\n` or `\r`.
    EndCRLF,
}

/// A zero-width assertion of a pattern: one of the six anchors, or one of
/// the assertions on word boundaries.
#[derive(Copy, Clone, Debug, PartialEq, Eq, Structural)]
pub enum AstLook {
    /// The start of the input.
    Start,
    /// The end of the input.
    End,
    /// The start of the input or of a line that `\n` ended.
    StartLF,
    /// The end of the input or of a line, before `\n`.
    EndLF,
    /// The start of the input or of a line that `\r\n`, `\n` or `\r` ended.
    StartCRLF,
    /// The end of the input or of a line, before `\r\n`, `\n` or `\r`.
    EndCRLF,
    /// Between an ASCII word character and what is none.
    WordAscii,
    /// Not between an ASCII word character and what is none.
    WordAsciiNegate,
    /// Between a Unicode word character and what is none.
    WordUnicode,
    /// Not between a Unicode word character and what is none.
    WordUnicodeNegate,
    /// The start of an ASCII word.
    WordStartAscii,
    /// The end of an ASCII word.
    WordEndAscii,
    /// The start of a Unicode word.
    WordStartUnicode,
    /// The end of a Unicode word.
    WordEndUnicode,
    /// Not behind an ASCII word character.
    WordStartHalfAscii,
    /// Not before an ASCII word character.
    WordEndHalfAscii,
    /// Not behind a Unicode word character.
    WordStartHalfUnicode,
    /// Not before a Unicode word character.
    WordEndHalfUnicode,
}

impl AstLook {
    /// The anchor that the assertion is, or `None` for an assertion on word
    /// boundaries, which no engine supports.
    pub open spec fn spec_anchor(self) -> Option<Anchor> {
        match self {
            AstLook::Start => Some(Anchor::Start),
            AstLook::End => Some(Anchor::End),
            AstLook::StartLF => Some(Anchor::StartLF),
            AstLook::EndLF => Some(Anchor::EndLF),
            AstLook::StartCRLF => Some(Anchor::StartCRLF),
            AstLook::EndCRLF => Some(Anchor::EndCRLF),
            _ => None,
        }
    }

    /// Returns the anchor that the assertion is, or `None` for an assertion
    /// on word boundaries.
    #[verifier::when_used_as_spec(spec_anchor)]
    pub fn anchor(self) -> (r: Option<Anchor>)
        ensures
            r == self.spec_anchor(),
    {
        match self {
            AstLook::Start => Some(Anchor::Start),
            AstLook::End => Some(Anchor::End),
            AstLook::StartLF => Some(Anchor::StartLF),
            AstLook::EndLF => Some(Anchor::EndLF),
            AstLook::StartCRLF => Some(Anchor::StartCRLF),
            AstLook::EndCRLF => Some(Anchor::EndCRLF),
            AstLook::WordAscii => None,
            AstLook::WordAsciiNegate => None,
            AstLook::WordUnicode => None,
            AstLook::WordUnicodeNegate => None,
            AstLook::WordStartAscii => None,
            AstLook::WordEndAscii => None,
            AstLook::WordStartUnicode => None,
            AstLook::WordEndUnicode => None,
            AstLook::WordStartHalfAscii => None,
            AstLook::WordEndHalfAscii => None,
            AstLook::WordStartHalfUnicode => None,
            AstLook::WordEndHalfUnicode => None,
        }
    }
}

/// A character class: a list of inclusive ranges.
#[derive(Debug, PartialEq, Eq)]
pub enum AstClass {
    /// Ranges of Unicode code points.
    Unicode(Vec<(char, char)>),
    /// Ranges of raw bytes.
    Bytes(Vec<(u8, u8)>),
}

/// The syntax tree of a pattern.
#[derive(Debug, PartialEq, Eq)]
pub enum Ast {
    /// Matches the empty string.
    Empty,
    /// Matches these bytes, one after the other.
    Literal(Vec<u8>),
    /// Matches one character of a class.
    Class(AstClass),
    /// A zero-width assertion.
    Look(AstLook),
    /// Matches `sub` at least `min` times and, if `max` is given, at most
    /// `max` times; as often as possible when `greedy`.
    Repetition { min: u32, max: Option<u32>, greedy: bool, sub: Box<Ast> },
    /// The group with the given index around `sub`.
    Capture { index: u32, sub: Box<Ast> },
    /// Matches each expression in turn.
    Concat(Vec<Ast>),
    /// Matches one of the expressions; earlier ones are preferred.
    Alternation(Vec<Ast>),
}

/// The highest group index whose two registers fit in 32 bits.
pub const MAX_CAPTURE_INDEX: u32 = 0x7FFF_FFFF;

/// True when every range holds a character and ends before the next
/// starts: the ranges of a class stand in this order.
pub open spec fn ranges_sorted(ranges: Seq<(Char, Char)>) -> bool {
    &&& forall|k: int| 0 <= k < ranges.len() ==> (#[trigger] ranges[k]).0.0 <= ranges[k].1.0
    &&& forall|k1: int, k2: int|
        0 <= k1 < k2 < ranges.len() ==> (#[trigger] ranges[k1]).1.0 < (#[trigger] ranges[k2]).0.0
}

/// True when `c` lies in the range at index `k`.
pub open spec fn in_range(ranges: Seq<(Char, Char)>, k: int, c: Char) -> bool {
    0 <= k < ranges.len() && ranges[k].0.0 <= c.0 <= ranges[k].1.0
}

/// True when `c` lies in one of the ranges: the class matches it.
pub open spec fn in_class(ranges: Seq<(Char, Char)>, c: Char) -> bool {
    exists|k: int| in_range(ranges, k, c)
}

/// Returns true when every range holds a character and ends before the
/// next starts.
pub fn ranges_are_sorted(ranges: &Vec<(Char, Char)>) -> (r: bool)
    ensures
        r == ranges_sorted(ranges@),
{
    let mut i: usize = 0;
    while i < ranges.len()
        invariant
            i <= ranges.len(),
            ranges_sorted(ranges@.subrange(0, i as int)),
        decreases ranges.len() - i,
    {
        let (from, to) = ranges[i];
        if from.0 > to.0 {
            assert(!(ranges@[i as int].0.0 <= ranges@[i as int].1.0));
            return false;
        }
        if i > 0 && ranges[i - 1].1.0 >= from.0 {
            assert(!(ranges@[i - 1].1.0 < ranges@[i as int].0.0));
            return false;
        }
        proof {
            let before = ranges@.subrange(0, i as int);
            let after = ranges@.subrange(0, i + 1);
            assert forall|k1: int, k2: int| 0 <= k1 < k2 < after.len() implies (#[trigger] after[k1]).1.0
                < (#[trigger] after[k2]).0.0 by {
                if k2 < i {
                    assert(before[k1].1.0 < before[k2].0.0);
                } else if k1 < i - 1 {
                    assert(before[k1].1.0 < before[i - 1].0.0);
                    assert(before[i - 1].0.0 <= before[i - 1].1.0);
                }
            }
            assert forall|k: int| 0 <= k < after.len() implies (#[trigger] after[k]).0.0 <= after[k].1.0 by {
                if k < i {
                    assert(before[k].0.0 <= before[k].1.0);
                }
            }
        }
        i += 1;
    }
    assert(ranges@.subrange(0, i as int) =~= ranges@);
    true
}

impl AstClass {
    /// The ranges of the class, over `Char`.
    pub open spec fn ranges(self) -> Seq<(Char, Char)> {
        match self {
            AstClass::Unicode(v) => Seq::new(v@.len(), |i: int| (Char(v@[i].0 as u32), Char(v@[i].1 as u32))),
            AstClass::Bytes(v) => Seq::new(v@.len(), |i: int| (Char(v@[i].0 as u32), Char(v@[i].1 as u32))),
        }
    }

    /// True when every string that the class matches is valid UTF-8: a class
    /// of code points always, a class of bytes when it holds ASCII only.
    pub open spec fn spec_is_utf8(self) -> bool {
        match self {
            AstClass::Unicode(_) => true,
            AstClass::Bytes(v) => forall|i: int| 0 <= i < v@.len() ==> (#[trigger] v@[i]).1 <= 0x7F,
        }
    }

    /// True when the ranges of the class are sorted, as a parser gives
    /// them.
    pub open spec fn wf(self) -> bool {
        ranges_sorted(self.ranges())
    }

    /// Returns true when the ranges of the class are sorted.
    pub fn is_well_formed(&self) -> (r: bool)
        ensures
            r == self.wf(),
    {
        let ranges = self.to_ranges();
        ranges_are_sorted(&ranges)
    }

    /// Returns the ranges of the class over `Char`.
    pub fn to_ranges(&self) -> (r: Vec<(Char, Char)>)
        ensures
            r@ == self.ranges(),
    {
        let mut out: Vec<(Char, Char)> = Vec::new();
        match self {
            AstClass::Unicode(v) => {
                let mut i: usize = 0;
                while i < v.len()
                    invariant
                        i <= v.len(),
                        *self == AstClass::Unicode(*v),
                        out@ == self.ranges().subrange(0, i as int),
                    decreases v.len() - i,
                {
                    let (a, b) = v[i];
                    out.push((Char(a as u32), Char(b as u32)));
                    assert(out@ =~= self.ranges().subrange(0, i + 1));
                    i += 1;
                }
                assert(out@ =~= self.ranges());
            },
            AstClass::Bytes(v) => {
                let mut i: usize = 0;
                while i < v.len()
                    invariant
                        i <= v.len(),
                        *self == AstClass::Bytes(*v),
                        out@ == self.ranges().subrange(0, i as int),
                    decreases v.len() - i,
                {
                    let (a, b) = v[i];
                    out.push((Char(a as u32), Char(b as u32)));
                    assert(out@ =~= self.ranges().subrange(0, i + 1));
                    i += 1;
                }
                assert(out@ =~= self.ranges());
            },
        }
        out
    }

    /// Returns true when every string that the class matches is valid UTF-8.
    pub fn is_utf8(&self) -> (r: bool)
        ensures
            r == self.spec_is_utf8(),
    {
        match self {
            AstClass::Unicode(_) => true,
            AstClass::Bytes(v) => {
                let mut i: usize = 0;
                while i < v.len()
                    invariant
                        i <= v.len(),
                        *self == AstClass::Bytes(*v),
                        forall|k: int| 0 <= k < i ==> (#[trigger] v@[k]).1 <= 0x7F,
                    decreases v.len() - i,
                {
                    if v[i].1 > 0x7F {
                        assert(self->Bytes_0@[i as int].1 > 0x7F);
                        return false;
                    }
                    i += 1;
                }
                true
            },
        }
    }
}

/// Returns true when `bytes` is valid UTF-8.
pub fn is_valid_utf8(bytes: &[u8]) -> (r: bool)
    ensures
        r == valid_utf8(bytes@),
{
    let mut pos: usize = 0;
    assert(suffix(bytes@, 0) =~= bytes@);
    while pos < bytes.len()
        invariant
            pos <= bytes@.len(),
            valid_utf8(bytes@) == valid_utf8(suffix(bytes@, pos as int)),
        decreases bytes@.len() - pos,
    {
        let ghost s = suffix(bytes@, pos as int);
        match decode_scalar(bytes, pos) {
            None => {
                assert(!valid_utf8(s));
                return false;
            },
            Some((_, w)) => {
                assert(pop_first_scalar(s) =~= suffix(bytes@, pos + w));
                pos += w;
            },
        }
    }
    assert(suffix(bytes@, pos as int).len() == 0);
    true
}

impl Ast {
    /// True when every string that the expression matches is valid UTF-8.
    pub open spec fn spec_is_utf8(self) -> bool
        decreases self,
    {
        match self {
            Ast::Empty => true,
            Ast::Literal(bytes) => valid_utf8(bytes@),
            Ast::Class(class) => class.spec_is_utf8(),
            Ast::Look(_) => true,
            Ast::Repetition { sub, .. } => sub.spec_is_utf8(),
            Ast::Capture { sub, .. } => sub.spec_is_utf8(),
            Ast::Concat(subs) => forall|i: int|
                0 <= i < subs@.len() ==> (#[trigger] subs@[i]).spec_is_utf8(),
            Ast::Alternation(subs) => forall|i: int|
                0 <= i < subs@.len() ==> (#[trigger] subs@[i]).spec_is_utf8(),
        }
    }

    /// True when the expression holds an assertion on word boundaries.
    pub open spec fn has_word_boundary(self) -> bool
        decreases self,
    {
        match self {
            Ast::Empty => false,
            Ast::Literal(_) => false,
            Ast::Class(_) => false,
            Ast::Look(look) => look.spec_anchor() is None,
            Ast::Repetition { sub, .. } => sub.has_word_boundary(),
            Ast::Capture { sub, .. } => sub.has_word_boundary(),
            Ast::Concat(subs) => exists|i: int|
                0 <= i < subs@.len() && (#[trigger] subs@[i]).has_word_boundary(),
            Ast::Alternation(subs) => exists|i: int|
                0 <= i < subs@.len() && (#[trigger] subs@[i]).has_word_boundary(),
        }
    }

    /// True when the tree has the shape that a parser gives it: the ranges
    /// of a class are sorted, an alternation has a branch, and the two
    /// registers of every group fit in 32 bits.
    pub open spec fn wf(self) -> bool
        decreases self,
    {
        match self {
            Ast::Empty => true,
            Ast::Literal(_) => true,
            Ast::Class(class) => class.wf(),
            Ast::Look(_) => true,
            Ast::Repetition { sub, .. } => sub.wf(),
            Ast::Capture { index, sub } => index <= MAX_CAPTURE_INDEX && sub.wf(),
            Ast::Concat(subs) => forall|i: int| 0 <= i < subs@.len() ==> (#[trigger] subs@[i]).wf(),
            Ast::Alternation(subs) => subs@.len() > 0 && forall|i: int|
                0 <= i < subs@.len() ==> (#[trigger] subs@[i]).wf(),
        }
    }

    /// The number of groups in the expression.
    pub open spec fn captures_len(self) -> nat
        decreases self, 0nat,
    {
        match self {
            Ast::Empty => 0,
            Ast::Literal(_) => 0,
            Ast::Class(_) => 0,
            Ast::Look(_) => 0,
            Ast::Repetition { sub, .. } => sub.captures_len(),
            Ast::Capture { sub, .. } => 1 + sub.captures_len(),
            Ast::Concat(subs) => Ast::captures_len_of(subs@, subs@.len()),
            Ast::Alternation(subs) => Ast::captures_len_of(subs@, subs@.len()),
        }
    }

    /// The number of groups in the first `n` expressions of `subs`.
    pub open spec fn captures_len_of(subs: Seq<Ast>, n: nat) -> nat
        decreases subs, n,
    {
        if n == 0 || n > subs.len() {
            0
        } else {
            Ast::captures_len_of(subs, (n - 1) as nat) + subs[n - 1].captures_len()
        }
    }

    /// Returns true when every string that the expression matches is valid
    /// UTF-8.
    pub fn is_utf8(&self) -> (r: bool)
        ensures
            r == self.spec_is_utf8(),
        decreases self,
    {
        match self {
            Ast::Empty => true,
            Ast::Literal(bytes) => is_valid_utf8(bytes.as_slice()),
            Ast::Class(class) => class.is_utf8(),
            Ast::Look(_) => true,
            Ast::Repetition { sub, .. } => sub.is_utf8(),
            Ast::Capture { sub, .. } => sub.is_utf8(),
            Ast::Concat(subs) => Ast::all_utf8(subs),
            Ast::Alternation(subs) => Ast::all_utf8(subs),
        }
    }

    /// Returns true when every expression of the list matches valid UTF-8
    /// only.
    pub fn all_utf8(subs: &Vec<Ast>) -> (r: bool)
        ensures
            r == forall|i: int| 0 <= i < subs@.len() ==> (#[trigger] subs@[i]).spec_is_utf8(),
        decreases subs,
    {
        let mut i: usize = 0;
        while i < subs.len()
            invariant
                i <= subs.len(),
                forall|k: int| 0 <= k < i ==> (#[trigger] subs@[k]).spec_is_utf8(),
            decreases subs.len() - i,
        {
            assert(decreases_to!(*subs => subs[i as int]));
            if !subs[i].is_utf8() {
                assert(!subs@[i as int].spec_is_utf8());
                return false;
            }
            i += 1;
        }
        true
    }

    /// Returns true when the expression holds an assertion on word
    /// boundaries.
    pub fn contains_word_boundary(&self) -> (r: bool)
        ensures
            r == self.has_word_boundary(),
        decreases self,
    {
        match self {
            Ast::Empty => false,
            Ast::Literal(_) => false,
            Ast::Class(_) => false,
            Ast::Look(look) => look.anchor().is_none(),
            Ast::Repetition { sub, .. } => sub.contains_word_boundary(),
            Ast::Capture { sub, .. } => sub.contains_word_boundary(),
            Ast::Concat(subs) => Ast::any_word_boundary(subs),
            Ast::Alternation(subs) => Ast::any_word_boundary(subs),
        }
    }

    /// Returns true when an expression of the list holds an assertion on
    /// word boundaries.
    pub fn any_word_boundary(subs: &Vec<Ast>) -> (r: bool)
        ensures
            r == exists|i: int| 0 <= i < subs@.len() && (#[trigger] subs@[i]).has_word_boundary(),
        decreases subs,
    {
        let mut i: usize = 0;
        while i < subs.len()
            invariant
                i <= subs.len(),
                forall|k: int| 0 <= k < i ==> !(#[trigger] subs@[k]).has_word_boundary(),
            decreases subs.len() - i,
        {
            assert(decreases_to!(*subs => subs[i as int]));
            if subs[i].contains_word_boundary() {
                assert(subs@[i as int].has_word_boundary());
                return true;
            }
            i += 1;
        }
        false
    }

    /// Returns true when the tree has the shape that a parser gives it.
    pub fn is_well_formed(&self) -> (r: bool)
        ensures
            r == self.wf(),
        decreases self,
    {
        match self {
            Ast::Empty => true,
            Ast::Literal(_) => true,
            Ast::Class(class) => class.is_well_formed(),
            Ast::Look(_) => true,
            Ast::Repetition { sub, .. } => sub.is_well_formed(),
            Ast::Capture { index, sub } => *index <= MAX_CAPTURE_INDEX && sub.is_well_formed(),
            Ast::Concat(subs) => Ast::all_well_formed(subs),
            Ast::Alternation(subs) => subs.len() > 0 && Ast::all_well_formed(subs),
        }
    }

    /// Returns true when every tree of the list has the shape that a parser
    /// gives it.
    pub fn all_well_formed(subs: &Vec<Ast>) -> (r: bool)
        ensures
            r == forall|i: int| 0 <= i < subs@.len() ==> (#[trigger] subs@[i]).wf(),
        decreases subs,
    {
        let mut i: usize = 0;
        while i < subs.len()
            invariant
                i <= subs.len(),
                forall|k: int| 0 <= k < i ==> (#[trigger] subs@[k]).wf(),
            decreases subs.len() - i,
        {
            assert(decreases_to!(*subs => subs[i as int]));
            if !subs[i].is_well_formed() {
                assert(!subs@[i as int].wf());
                return false;
            }
            i += 1;
        }
        true
    }

    /// Returns the number of groups in the expression, or `usize::MAX` when
    /// there are more.
    pub fn explicit_captures_len(&self) -> (r: usize)
        ensures
            r == if self.captures_len() <= usize::MAX { self.captures_len() } else { usize::MAX as nat },
        decreases self,
    {
        match self {
            Ast::Empty => 0,
            Ast::Literal(_) => 0,
            Ast::Class(_) => 0,
            Ast::Look(_) => 0,
            Ast::Repetition { sub, .. } => sub.explicit_captures_len(),
            Ast::Capture { sub, .. } => sub.explicit_captures_len().saturating_add(1),
            Ast::Concat(subs) => Ast::captures_len_in(subs),
            Ast::Alternation(subs) => Ast::captures_len_in(subs),
        }
    }

    /// Returns the number of groups in the expressions of the list, or
    /// `usize::MAX` when there are more.
    pub fn captures_len_in(subs: &Vec<Ast>) -> (r: usize)
        ensures
            r == if Ast::captures_len_of(subs@, subs@.len()) <= usize::MAX {
                Ast::captures_len_of(subs@, subs@.len())
            } else {
                usize::MAX as nat
            },
        decreases subs,
    {
        let mut n: usize = 0;
        let mut i: usize = 0;
        while i < subs.len()
            invariant
                i <= subs.len(),
                n == if Ast::captures_len_of(subs@, i as nat) <= usize::MAX {
                    Ast::captures_len_of(subs@, i as nat)
                } else {
                    usize::MAX as nat
                },
            decreases subs.len() - i,
        {
            assert(decreases_to!(*subs => subs[i as int]));
            n = n.saturating_add(subs[i].explicit_captures_len());
            i += 1;
        }
        n
    }
}

} // verus!
