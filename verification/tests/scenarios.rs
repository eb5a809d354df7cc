use gregex::regex::{next_span, Builder, Regex};
use gregex::util::{Input, Span};

fn spans_of(pattern: &str, subject: &str) -> Vec<(usize, usize)> {
    let re = Regex::pike_vm(pattern).unwrap();
    re.find_all(Input::new(subject)).collect().iter().map(|m| (m.span.from, m.span.to)).collect()
}

#[test]
fn digits_are_found_in_the_middle() {
    let re = Regex::pike_vm(r"\d+").unwrap();
    let m = re.find(Input::new("abc123def")).unwrap();
    assert_eq!((m.start(), m.end()), (3, 6));
    assert_eq!(m.as_str(), "123");
    assert!(re.is_match(Input::new("abc123def")));
    assert!(!re.is_match(Input::new("abcdef")));
    assert!(re.find(Input::new("abcdef")).is_none());
}

#[test]
fn groups_are_reported_by_index() {
    let re = Regex::pike_vm(r"(\w+)-(\d+)").unwrap();
    let caps = re.find_captures(Input::new("test-42")).unwrap();
    assert_eq!(caps.group_len(), 3);
    let all = caps.group0();
    assert_eq!((all.start(), all.end()), (0, 7));
    assert_eq!(all.as_str(), "test-42");
    assert_eq!(caps.get(1).unwrap().as_str(), "test");
    assert_eq!(caps.get(2).unwrap().as_str(), "42");
    assert!(caps.get(3).is_none());
}

#[test]
fn star_finds_empty_matches_too() {
    assert_eq!(spans_of("a*", "aaab"), vec![(0, 3), (3, 3), (4, 4)]);
}

#[test]
fn alternation_finds_the_leftmost_branch() {
    let re = Regex::pike_vm("foo|bar").unwrap();
    let m = re.find(Input::new("zxbarfoo")).unwrap();
    assert_eq!((m.start(), m.end()), (2, 5));
    assert_eq!(m.as_str(), "bar");
}

#[test]
fn multi_line_anchors_match_at_every_line() {
    assert_eq!(spans_of("(?m)^foo$", "foo\nbar\nfoo"), vec![(0, 3), (8, 11)]);
}

#[test]
fn negated_class_splits_around_digits() {
    assert_eq!(spans_of("[^0-9]+", "abc123!@#"), vec![(0, 3), (6, 9)]);
}

#[test]
fn crlf_anchors_treat_the_pair_as_one_terminator() {
    assert_eq!(
        spans_of("(?mR)^foo$", "foo\r\nbar\r\nfoo\nbaz\nfoo"),
        vec![(0, 3), (10, 13), (18, 21)]
    );
    assert_eq!(spans_of("(?mR)^", "a\r\nb"), vec![(0, 0), (3, 3)]);
    assert_eq!(spans_of("(?mR)$", "a\r\nb"), vec![(1, 1), (4, 4)]);
}

#[test]
fn empty_matches_advance_by_one_code_point() {
    // 'é' takes two bytes, '€' three and '𝄞' four.
    assert_eq!(spans_of("", "aé€𝄞"), vec![(0, 0), (1, 1), (3, 3), (6, 6), (10, 10)]);
    assert_eq!(spans_of("x*", "é"), vec![(0, 0), (2, 2)]);
    assert_eq!(spans_of("", ""), vec![(0, 0)]);
}

#[test]
fn find_all_goes_from_left_to_right_and_ends() {
    let re = Regex::pike_vm(r"\d").unwrap();
    let mut all = re.find_all(Input::new("1a2b3"));
    assert_eq!(all.next().map(|m| m.span), Some(Span { from: 0, to: 1 }));
    assert_eq!(all.next().map(|m| m.span), Some(Span { from: 2, to: 3 }));
    assert_eq!(all.next().map(|m| m.span), Some(Span { from: 4, to: 5 }));
    assert_eq!(all.next().map(|m| m.span), None);
    assert_eq!(all.next().map(|m| m.span), None);
}

#[test]
fn find_all_captures_reports_each_match_with_its_groups() {
    let re = Regex::pike_vm(r"(\w)(\d)?").unwrap();
    let all = re.find_all_captures(Input::new("a1 b")).collect();
    assert_eq!(all.len(), 2);
    assert_eq!(all[0].group0().as_str(), "a1");
    assert_eq!(all[0].get(1).unwrap().as_str(), "a");
    assert_eq!(all[0].get(2).unwrap().as_str(), "1");
    assert_eq!(all[1].group0().as_str(), "b");
    assert_eq!(all[1].get(1).unwrap().as_str(), "b");
    assert!(all[1].get(2).is_none());
}

#[test]
fn anchored_search_starts_where_the_span_starts() {
    let re = Regex::pike_vm("b+").unwrap();
    assert!(re.find(Input::new("abb").anchored(true)).is_none());
    let m = re.find(Input::new("abb").anchored(true).from(1)).unwrap();
    assert_eq!(m.span, Span { from: 1, to: 3 });
    let m = re.find(Input::new("abb").from(1).to(2)).unwrap();
    assert_eq!(m.span, Span { from: 1, to: 2 });
}

#[test]
fn first_match_may_stop_before_the_longest_match() {
    let re = Regex::pike_vm("a+").unwrap();
    let m = re.find(Input::new("aaa").first_match(true)).unwrap();
    assert_eq!(m.span, Span { from: 0, to: 1 });
    let m = re.find(Input::new("aaa")).unwrap();
    assert_eq!(m.span, Span { from: 0, to: 3 });
}

#[test]
fn a_span_sees_the_characters_around_it() {
    let re = Regex::pike_vm("^b").unwrap();
    assert!(re.find(Input::new("ab").from(1)).is_none());
    let re = Regex::pike_vm("(?m)^b$").unwrap();
    let m = re.find(Input::new("a\nb\nc").from(2).to(3)).unwrap();
    assert_eq!(m.span, Span { from: 2, to: 3 });
    let re = Regex::pike_vm("b$").unwrap();
    assert!(re.find(Input::new("abc").to(2)).is_none());
}

#[test]
fn an_input_that_is_not_valid_matches_nothing() {
    let re = Regex::pike_vm("").unwrap();
    // Inside the two bytes of 'é'.
    assert!(re.find(Input::new("é").from(1)).is_none());
    assert!(re.find(Input::new("é").to(1)).is_none());
    // Beyond the end, and the wrong way round.
    assert!(re.find(Input::new("ab").to(3)).is_none());
    assert!(re.find(Input::new("ab").from(2).to(1)).is_none());
    assert!(!re.is_match(Input::new("ab").span(Span::invalid())));
    assert!(re.find_captures(Input::new("é").from(1)).is_none());
    assert!(re.find_all(Input::new("é").from(1)).collect().is_empty());
}

#[test]
fn a_loop_around_an_empty_branch_ends() {
    let re = Regex::pike_vm("(|a)*").unwrap();
    let m = re.find(Input::new("aa")).unwrap();
    assert_eq!(m.span.from, 0);
    let re = Regex::pike_vm("(a*)*").unwrap();
    let m = re.find(Input::new("aab")).unwrap();
    assert_eq!(m.span, Span { from: 0, to: 2 });
    let re = Regex::pike_vm("(a?)*b").unwrap();
    let m = re.find(Input::new("aab")).unwrap();
    assert_eq!(m.span, Span { from: 0, to: 3 });
}

#[test]
fn options_of_the_builder_change_the_match() {
    let re = Builder::new("abc").case_insensitive(true).pike_vm().unwrap();
    assert!(re.is_match(Input::new("xABCx")));
    let re = Builder::new("abc").pike_vm().unwrap();
    assert!(!re.is_match(Input::new("xABCx")));

    let re = Builder::new(r"(a)(b)").cg(false).pike_vm().unwrap();
    let caps = re.find_captures(Input::new("ab")).unwrap();
    assert_eq!(caps.group_len(), 1);
    assert_eq!(caps.group0().as_str(), "ab");

    let re = Builder::new(r"\w+").unicode(true).pike_vm().unwrap();
    assert_eq!(re.find(Input::new("héllo")).unwrap().as_str(), "héllo");
    let re = Builder::new(r"\w+").unicode(false).pike_vm().unwrap();
    assert_eq!(re.find(Input::new("héllo")).unwrap().as_str(), "h");
}

#[test]
fn the_same_search_gives_the_same_result() {
    let re = Regex::pike_vm(r"(\w+)@(\w+)").unwrap();
    let first = re.find_captures(Input::new("mail bob@example now")).unwrap();
    let second = re.find_captures(Input::new("mail bob@example now")).unwrap();
    for i in 0..first.group_len() {
        assert_eq!(first.get(i).map(|m| m.span), second.get(i).map(|m| m.span));
    }
    assert_eq!(first.get(1).unwrap().as_str(), "bob");
    assert_eq!(first.get(2).unwrap().as_str(), "example");
}

#[test]
fn collect_gives_what_next_gives_one_by_one() {
    let re = Regex::pike_vm(r"(\w)(\d*)").unwrap();
    let subject = "a1 é22  z";
    let mut one_by_one = Vec::new();
    let mut all = re.find_all(Input::new(subject));
    while let Some(m) = all.next() {
        one_by_one.push(m.span);
    }
    let at_once: Vec<Span> = re.find_all(Input::new(subject)).collect().iter().map(|m| m.span).collect();
    assert_eq!(at_once, one_by_one);
    assert_eq!(at_once, vec![Span { from: 0, to: 2 }, Span { from: 3, to: 7 }, Span { from: 9, to: 10 }]);

    let mut groups_one_by_one = Vec::new();
    let mut all = re.find_all_captures(Input::new(subject));
    while let Some(c) = all.next() {
        groups_one_by_one.push((0..c.group_len()).map(|i| c.get(i).map(|m| m.span)).collect::<Vec<_>>());
    }
    let groups_at_once: Vec<Vec<Option<Span>>> = re
        .find_all_captures(Input::new(subject))
        .collect()
        .iter()
        .map(|c| (0..c.group_len()).map(|i| c.get(i).map(|m| m.span)).collect())
        .collect();
    assert_eq!(groups_at_once, groups_one_by_one);
    assert_eq!(
        groups_at_once[1],
        vec![Some(Span { from: 3, to: 7 }), Some(Span { from: 3, to: 5 }), Some(Span { from: 5, to: 7 })]
    );
    // Group 0 of every match is the match that `find_all` gives.
    let overall: Vec<Span> = groups_at_once.iter().map(|g| g[0].unwrap()).collect();
    assert_eq!(overall, at_once);
}

#[test]
fn the_next_search_starts_behind_the_match() {
    let input = Input::new("aé€b").to(6);
    // Behind a match that is not empty: where it ends.
    assert_eq!(next_span(input, Span { from: 0, to: 3 }), Span { from: 3, to: 6 });
    // Behind an empty match: one code point further.
    assert_eq!(next_span(input, Span { from: 0, to: 0 }), Span { from: 1, to: 6 });
    assert_eq!(next_span(input, Span { from: 1, to: 1 }), Span { from: 3, to: 6 });
    assert_eq!(next_span(input, Span { from: 3, to: 3 }), Span { from: 6, to: 6 });
    // Behind the end of the span the search is over.
    assert!(!next_span(input, Span { from: 6, to: 6 }).valid());
    assert_eq!(next_span(Input::new("ab"), Span { from: 2, to: 2 }), Span { from: 3, to: 2 });
    // What is no match in the subject ends the search.
    assert_eq!(next_span(input, Span { from: 2, to: 3 }), Span::invalid());
    assert_eq!(next_span(input, Span { from: 3, to: 1 }), Span::invalid());
    assert_eq!(next_span(input, Span { from: 0, to: 20 }), Span::invalid());
    assert_eq!(next_span(input, Span::invalid()), Span::invalid());
}
