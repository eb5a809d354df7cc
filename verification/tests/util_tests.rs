use gregex::scan::{decode_char, decode_scalar};
use gregex::util::{
    difference, find_prev_char, intersection, Captures, Char, Input, Interval, IntervalSet, Match, Span,
    INPUT_BOUND,
};

#[test]
fn span_tells_empty_valid_and_invalid_apart() {
    assert!(Span { from: 3, to: 3 }.empty());
    assert!(!Span { from: 3, to: 4 }.empty());
    assert!(Span { from: 3, to: 3 }.valid());
    assert!(Span { from: 3, to: 4 }.valid());
    assert!(!Span { from: 4, to: 3 }.valid());
    assert_eq!(Span::invalid(), Span { from: usize::MAX, to: 0 });
    assert!(!Span::invalid().valid());
}

#[test]
fn span_converts_from_and_to_a_range() {
    let span: Span = (2..5).into();
    assert_eq!(span, Span { from: 2, to: 5 });
    let range: std::ops::Range<usize> = Span { from: 7, to: 9 }.into();
    assert_eq!(range, 7..9);
}

#[test]
fn input_defaults_to_the_whole_subject() {
    let input = Input::new("héllo");
    assert_eq!(input.subject, "héllo");
    assert_eq!(input.span, Span { from: 0, to: 6 });
    assert!(!input.anchored);
    assert!(!input.first_match);
    assert!(input.valid());
    let same: Input = "héllo".into();
    assert_eq!(same.span, Span { from: 0, to: 6 });
    assert!(!same.anchored && !same.first_match);
}

#[test]
fn input_builders_set_one_field_each() {
    let input = Input::new("abc").first_match(true);
    assert!(input.first_match && !input.anchored);
    let input = input.anchored(true);
    assert!(input.first_match && input.anchored);
    let input = input.span(Span { from: 1, to: 2 });
    assert_eq!(input.span, Span { from: 1, to: 2 });
    let input = input.from(0);
    assert_eq!(input.span, Span { from: 0, to: 2 });
    let input = input.to(3);
    assert_eq!(input.span, Span { from: 0, to: 3 });
    assert_eq!(input.subject, "abc");
}

#[test]
fn input_is_valid_on_character_boundaries_only() {
    assert!(Input::new("aé").from(1).valid());
    assert!(!Input::new("aé").from(2).valid());
    assert!(!Input::new("aé").to(2).valid());
    assert!(Input::new("aé").from(3).valid());
    assert!(!Input::new("aé").to(4).valid());
    assert!(!Input::new("aé").from(1).to(0).valid());
    assert!(Input::new("").valid());
}

#[test]
fn match_gives_its_bounds_and_its_text() {
    let m = Match::new("hello world", Span { from: 6, to: 11 });
    assert_eq!(m.start(), 6);
    assert_eq!(m.end(), 11);
    assert_eq!(m.as_str(), "world");
    assert_eq!(Match::new("héllo", Span { from: 1, to: 3 }).as_str(), "é");
    assert_eq!(Match::new("héllo", Span { from: 3, to: 3 }).as_str(), "");
}

#[test]
fn next_match_start_advances_behind_an_empty_match() {
    assert_eq!(Match::new("abc", Span { from: 0, to: 2 }).next_match_start(), 2);
    assert_eq!(Match::new("abc", Span { from: 1, to: 1 }).next_match_start(), 2);
    // One code point further: 1, 2, 3 or 4 bytes.
    assert_eq!(Match::new("aé€𝄞", Span { from: 0, to: 0 }).next_match_start(), 1);
    assert_eq!(Match::new("aé€𝄞", Span { from: 1, to: 1 }).next_match_start(), 3);
    assert_eq!(Match::new("aé€𝄞", Span { from: 3, to: 3 }).next_match_start(), 6);
    assert_eq!(Match::new("aé€𝄞", Span { from: 6, to: 6 }).next_match_start(), 10);
    // At the end of the subject: one past the end.
    assert_eq!(Match::new("aé€𝄞", Span { from: 10, to: 10 }).next_match_start(), 11);
    assert_eq!(Match::new("", Span { from: 0, to: 0 }).next_match_start(), 1);
}

#[test]
fn captures_give_the_groups_that_took_part() {
    let caps = Captures::new(
        "test-42",
        vec![Span { from: 0, to: 7 }, Span { from: 0, to: 4 }, Span::invalid(), Span { from: 5, to: 7 }],
    );
    assert_eq!(caps.group_len(), 4);
    assert_eq!(caps.group0().as_str(), "test-42");
    assert_eq!(caps.get(0).unwrap().span, Span { from: 0, to: 7 });
    assert_eq!(caps.get(1).unwrap().as_str(), "test");
    assert!(caps.get(2).is_none());
    assert_eq!(caps.get(3).unwrap().as_str(), "42");
    assert!(caps.get(4).is_none());
}

#[test]
fn char_ranges_and_conversions() {
    assert_eq!(Char::all(), (Char(0), Char(u32::MAX)));
    assert_eq!(Char::all_valid(), (Char(0), Char(0x10FFFF)));
    assert_eq!(Char::all_valid(), (char::MIN.into(), char::MAX.into()));
    assert_eq!(Char::input_bound(), Char(INPUT_BOUND));
    assert_eq!(INPUT_BOUND, 0xFFFF_FFFF);
    assert_eq!(Char::from('a'), Char(97));
    assert_eq!(Char::from('€'), Char(0x20AC));
    assert_eq!(Char::from(0xFFu8), Char(255));
    assert_eq!(u32::from(Char(97)), 97);
    assert_eq!(i32::from(Char(97)), 97);
    assert_eq!(i32::from(Char::input_bound()), -1);
    assert!(Char('a' as u32) < Char('b' as u32));
    assert!(Char(0x10FFFF) < Char::input_bound());
}

#[test]
fn find_prev_char_gives_the_character_that_ends_at_an_offset() {
    assert_eq!(find_prev_char("aé€𝄞", 0), Char::input_bound());
    assert_eq!(find_prev_char("aé€𝄞", 1), Char::from('a'));
    assert_eq!(find_prev_char("aé€𝄞", 3), Char::from('é'));
    assert_eq!(find_prev_char("aé€𝄞", 6), Char::from('€'));
    assert_eq!(find_prev_char("aé€𝄞", 10), Char::from('𝄞'));
}

#[test]
fn scalars_are_decoded_with_their_width() {
    let text = "aé€𝄞";
    let bytes = text.as_bytes();
    assert_eq!(decode_scalar(bytes, 0), Some((Char::from('a'), 1)));
    assert_eq!(decode_scalar(bytes, 1), Some((Char::from('é'), 2)));
    assert_eq!(decode_scalar(bytes, 3), Some((Char::from('€'), 3)));
    assert_eq!(decode_scalar(bytes, 6), Some((Char::from('𝄞'), 4)));
    assert_eq!(decode_char(bytes, 0), (Char::from('a'), 1));
    assert_eq!(decode_char(bytes, 1), (Char::from('é'), 2));
    assert_eq!(decode_char(bytes, 3), (Char::from('€'), 3));
    assert_eq!(decode_char(bytes, 6), (Char::from('𝄞'), 4));
    assert_eq!(decode_scalar("\u{7ff}".as_bytes(), 0), Some((Char(0x7ff), 2)));
    assert_eq!(decode_scalar("\u{ffff}".as_bytes(), 0), Some((Char(0xffff), 3)));
    assert_eq!(decode_scalar("\u{10ffff}".as_bytes(), 0), Some((Char(0x10ffff), 4)));
}

#[test]
fn ill_formed_bytes_are_not_decoded() {
    // In the middle of a code point.
    assert_eq!(decode_scalar("é".as_bytes(), 1), None);
    // Cut short.
    assert_eq!(decode_scalar(&[0xC3], 0), None);
    assert_eq!(decode_scalar(&[0xE2, 0x82], 0), None);
    assert_eq!(decode_scalar(&[0xF0, 0x9D, 0x84], 0), None);
    // A leading byte where a continuation byte must stand.
    assert_eq!(decode_scalar(&[0xC3, 0x41], 0), None);
    // Overlong encodings.
    assert_eq!(decode_scalar(&[0xC0, 0x80], 0), None);
    assert_eq!(decode_scalar(&[0xE0, 0x80, 0x80], 0), None);
    assert_eq!(decode_scalar(&[0xF0, 0x80, 0x80, 0x80], 0), None);
    // A surrogate, a value beyond the last code point, and bytes that never occur.
    assert_eq!(decode_scalar(&[0xED, 0xA0, 0x80], 0), None);
    assert_eq!(decode_scalar(&[0xF4, 0x90, 0x80, 0x80], 0), None);
    assert_eq!(decode_scalar(&[0xFF], 0), None);
    assert_eq!(decode_scalar(&[0xF8, 0x80, 0x80, 0x80], 0), None);
}

#[test]
fn interval_emptiness_and_bounds() {
    assert!(Interval::empty().is_empty());
    assert_eq!(Interval::empty(), Interval(Char(1), Char(0)));
    assert_eq!(Interval::all(), Interval(Char(0), Char(u32::MAX)));
    assert_eq!(Interval::all_valid(), Interval(Char(0), Char(0x10FFFF)));
    assert!(!Interval::all().is_empty());
    assert!(!Interval::new(Char(5), Char(5)).is_empty());
    assert!(Interval::new(Char(6), Char(5)).is_empty());
    assert_eq!(Interval::new(Char(1), Char(9)), Interval(Char(1), Char(9)));
}

#[test]
fn interval_intersection() {
    let a = Interval::new(Char(10), Char(20));
    assert_eq!(a.intersect(&Interval::new(Char(15), Char(30))), Interval(Char(15), Char(20)));
    assert_eq!(a.intersect(&Interval::new(Char(0), Char(12))), Interval(Char(10), Char(12)));
    assert_eq!(a.intersect(&Interval::new(Char(12), Char(13))), Interval(Char(12), Char(13)));
    assert_eq!(a.intersect(&Interval::new(Char(20), Char(25))), Interval(Char(20), Char(20)));
    assert!(a.intersect(&Interval::new(Char(21), Char(25))).is_empty());
    assert!(a.intersect(&Interval::empty()).is_empty());
    assert_eq!(a.intersect(&Interval::all()), a);
}

#[test]
fn interval_subtraction() {
    let a = Interval::new(Char(10), Char(20));
    let none = Interval::empty();
    // No overlap: all of it, and nothing.
    assert_eq!(a.substract(&Interval::new(Char(0), Char(9))), (a, none));
    assert_eq!(a.substract(&Interval::new(Char(21), Char(30))), (a, none));
    // Strictly inside: a part on each side.
    assert_eq!(
        a.substract(&Interval::new(Char(13), Char(15))),
        (Interval(Char(10), Char(12)), Interval(Char(16), Char(20)))
    );
    // Over one end.
    assert_eq!(a.substract(&Interval::new(Char(0), Char(14))), (none, Interval(Char(15), Char(20))));
    assert_eq!(a.substract(&Interval::new(Char(18), Char(30))), (Interval(Char(10), Char(17)), none));
    // Over both ends.
    assert_eq!(a.substract(&Interval::new(Char(10), Char(20))), (none, none));
    assert_eq!(a.substract(&Interval::all()), (none, none));
    // At the limits of the range.
    assert_eq!(
        Interval::all().substract(&Interval::new(Char(0), Char(0))),
        (none, Interval(Char(1), Char(u32::MAX)))
    );
    assert_eq!(
        Interval::all().substract(&Interval::new(Char(u32::MAX), Char(u32::MAX))),
        (Interval(Char(0), Char(u32::MAX - 1)), none)
    );
}

fn set(ranges: &[(u32, u32)]) -> IntervalSet {
    IntervalSet::new(ranges.iter().map(|(a, b)| Interval::new(Char(*a), Char(*b))).collect())
}

#[test]
fn interval_set_emptiness_and_order() {
    assert!(set(&[]).is_empty());
    assert!(!set(&[(1, 2)]).is_empty());
    assert!(set(&[]).is_sorted());
    assert!(set(&[(1, 2), (3, 4), (9, 9)]).is_sorted());
    assert!(!set(&[(1, 2), (2, 4)]).is_sorted());
    assert!(!set(&[(3, 4), (1, 2)]).is_sorted());
    assert!(!set(&[(1, 2), (5, 4)]).is_sorted());
}

#[test]
fn interval_sets_are_split_in_three() {
    let (a_only, both, b_only) = set(&[(0, 10)]).intersect_and_substract(set(&[(3, 5)]));
    assert_eq!(a_only, set(&[(0, 2), (6, 10)]));
    assert_eq!(both, set(&[(3, 5)]));
    assert_eq!(b_only, set(&[]));

    let (a_only, both, b_only) = set(&[(3, 5)]).intersect_and_substract(set(&[(0, 10)]));
    assert_eq!(a_only, set(&[]));
    assert_eq!(both, set(&[(3, 5)]));
    assert_eq!(b_only, set(&[(0, 2), (6, 10)]));

    let (a_only, both, b_only) =
        set(&[(0, 4), (8, 12), (20, 30)]).intersect_and_substract(set(&[(2, 9), (11, 25), (40, 50)]));
    assert_eq!(a_only, set(&[(0, 1), (10, 10), (26, 30)]));
    assert_eq!(both, set(&[(2, 4), (8, 9), (11, 12), (20, 25)]));
    assert_eq!(b_only, set(&[(5, 7), (13, 19), (40, 50)]));

    let (a_only, both, b_only) = set(&[(1, 2), (5, 6)]).intersect_and_substract(set(&[(3, 4), (7, 8)]));
    assert_eq!(a_only, set(&[(1, 2), (5, 6)]));
    assert_eq!(both, set(&[]));
    assert_eq!(b_only, set(&[(3, 4), (7, 8)]));

    let (a_only, both, b_only) = set(&[]).intersect_and_substract(set(&[(3, 4)]));
    assert_eq!(a_only, set(&[]));
    assert_eq!(both, set(&[]));
    assert_eq!(b_only, set(&[(3, 4)]));

    let (a_only, both, b_only) =
        set(&[(0, u32::MAX)]).intersect_and_substract(set(&[(0, 0), (u32::MAX, u32::MAX)]));
    assert_eq!(a_only, set(&[(1, u32::MAX - 1)]));
    assert_eq!(both, set(&[(0, 0), (u32::MAX, u32::MAX)]));
    assert_eq!(b_only, set(&[]));
}

fn chars(ranges: &[(char, char)]) -> IntervalSet {
    IntervalSet::new(ranges.iter().map(|(a, b)| Interval::new((*a).into(), (*b).into())).collect())
}

#[test]
fn an_interval_is_cut_only_where_the_other_set_cuts_it() {
    let (a_only, both, b_only) = chars(&[('a', 'e'), ('x', 'z')]).intersect_and_substract(chars(&[('c', 'e')]));
    assert_eq!(a_only, chars(&[('a', 'b'), ('x', 'z')]));
    assert_eq!(both, chars(&[('c', 'e')]));
    assert_eq!(b_only, chars(&[]));

    let (a_only, both, b_only) = chars(&[('a', 'z')]).intersect_and_substract(chars(&[('c', 'e')]));
    assert_eq!(a_only, chars(&[('a', 'b'), ('f', 'z')]));
    assert_eq!(both, chars(&[('c', 'e')]));
    assert_eq!(b_only, chars(&[]));

    // Neighbours that touch stay apart.
    let (a_only, both, b_only) =
        chars(&[('a', 'c'), ('d', 'f'), ('g', 'k')]).intersect_and_substract(chars(&[('b', 'h')]));
    assert_eq!(a_only, chars(&[('a', 'a'), ('i', 'k')]));
    assert_eq!(both, chars(&[('b', 'c'), ('d', 'f'), ('g', 'h')]));
    assert_eq!(b_only, chars(&[]));
    let (a_only, both, b_only) =
        chars(&[('b', 'h')]).intersect_and_substract(chars(&[('a', 'c'), ('d', 'f'), ('g', 'k')]));
    assert_eq!(a_only, chars(&[]));
    assert_eq!(both, chars(&[('b', 'c'), ('d', 'f'), ('g', 'h')]));
    assert_eq!(b_only, chars(&[('a', 'a'), ('i', 'k')]));
}

#[test]
fn without_another_set_a_set_comes_back_as_it_is() {
    let (a_only, both, b_only) =
        chars(&[('a', 'c'), ('d', 'f'), ('x', 'z')]).intersect_and_substract(chars(&[]));
    assert_eq!(a_only, chars(&[('a', 'c'), ('d', 'f'), ('x', 'z')]));
    assert_eq!(both, chars(&[]));
    assert_eq!(b_only, chars(&[]));
    let (a_only, both, b_only) = chars(&[]).intersect_and_substract(chars(&[]));
    assert!(a_only.is_empty() && both.is_empty() && b_only.is_empty());
}

#[test]
fn lists_are_intersected_and_subtracted() {
    let list = |ranges: &[(u32, u32)]| -> Vec<Interval> {
        ranges.iter().map(|(a, b)| Interval::new(Char(*a), Char(*b))).collect()
    };
    assert_eq!(intersection(&list(&[(0, 9), (20, 29)]), &list(&[(5, 24)])), list(&[(5, 9), (20, 24)]));
    assert_eq!(intersection(&list(&[(0, 9)]), &list(&[(10, 19)])), list(&[]));
    assert_eq!(intersection(&list(&[(0, 9), (10, 19)]), &list(&[(0, 19)])), list(&[(0, 9), (10, 19)]));
    assert_eq!(difference(&list(&[(0, 9), (20, 29)]), &list(&[(5, 24)])), list(&[(0, 4), (25, 29)]));
    assert_eq!(difference(&list(&[(0, 9)]), &list(&[(0, 3), (5, 5), (9, 12)])), list(&[(4, 4), (6, 8)]));
    assert_eq!(difference(&list(&[(0, 9), (10, 19)]), &list(&[(30, 39)])), list(&[(0, 9), (10, 19)]));
    assert_eq!(difference(&list(&[(3, 4)]), &list(&[(0, 9)])), list(&[]));
}
