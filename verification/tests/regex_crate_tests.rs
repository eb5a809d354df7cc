use gregex::regex::{BuildError, Regex};
use gregex::thompson::bytecode::CompileError;
use gregex::util::Input;

fn groups_of_ours(pattern: &str, subject: &str) -> Option<Vec<Option<(usize, usize)>>> {
    let re = Regex::pike_vm(pattern).unwrap();
    re.find_captures(Input::new(subject))
        .map(|c| (0..c.group_len()).map(|i| c.get(i).map(|m| (m.span.from, m.span.to))).collect())
}

fn groups_of_regex_crate(pattern: &str, subject: &str) -> Option<Vec<Option<(usize, usize)>>> {
    let re = regex::Regex::new(pattern).unwrap();
    re.captures(subject).map(|c| (0..c.len()).map(|i| c.get(i).map(|m| (m.start(), m.end()))).collect())
}

#[test]
fn leftmost_match_and_groups_agree_with_the_regex_crate() {
    let cases: Vec<(&str, &str)> = vec![
        ("(a?)*", ""),
        ("(a?)*", "aa"),
        ("(a*)*", "aab"),
        ("(a|b)*", "abab"),
        ("(a*)+", "aa"),
        ("((a)|b)*", "ab"),
        ("((a)|b)*", "ba"),
        ("(a|ab)(c|bcd)(d*)", "abcd"),
        ("(a+)(b+)?", "aab"),
        ("(a)|(b)", "b"),
        ("(?:(a)|b)+", "ab"),
        ("(a*?)(a*)", "aaa"),
        ("(a+?)(a*)", "aaa"),
        ("a{2,3}?", "aaaa"),
        ("a{2,3}", "aaaa"),
        ("a{3}", "aaaa"),
        ("a{2,}", "aaaa"),
        ("a{2,}?", "aaaa"),
        ("(a{0,2})*", "aaaaa"),
        ("(\\w+)\\s(\\w+)", "hello world"),
        ("[[:alpha:]]+", "abc123"),
        ("\\p{Greek}+", "αβγ abc"),
        (".", "é"),
        (".", "\n"),
        ("(?s).", "\n"),
        ("x*", "aé€𝄞"),
        ("^", "ab"),
        ("$", "ab"),
        ("(?m)^b", "a\nb\n"),
        ("(?m)a$", "a\nb\n"),
        ("a|b|c|d|e", "xe"),
        ("(a|b|c|d|e)+", "abcde"),
        ("[a-cx-z0-3_!]+", "ab_!x09"),
        ("(?i)straße", "STRASSE strasse Straße"),
        ("(a*)*?b", "aab"),
        ("日本語?", "日本 日本語"),
        ("\\d{4}-\\d{2}-\\d{2}", "on 2024-06-01."),
        ("[^\\s]+@[a-z]+", " foo@bar "),
        ("", "abc"),
        ("abc", ""),
    ];
    for (pattern, subject) in cases {
        assert_eq!(
            groups_of_ours(pattern, subject),
            groups_of_regex_crate(pattern, subject),
            "pattern {:?} on {:?}",
            pattern,
            subject
        );
    }
}

#[test]
fn a_pattern_that_is_no_regular_expression_gives_a_syntax_error() {
    for pattern in ["invalid[", "(", "a{2,1}", "*", "\\"] {
        assert!(regex::Regex::new(pattern).is_err());
        match Regex::pike_vm(pattern) {
            Err(BuildError::Syntax(text)) => assert!(!text.is_empty()),
            other => panic!("expected a syntax error for {:?}, got {:?}", pattern, other.map(|_| ())),
        }
    }
}

#[test]
fn a_word_boundary_is_not_supported() {
    for pattern in [r"\bfoo", r"foo\B", r"(?-u)\b", r"a(\b|c)"] {
        match Regex::pike_vm(pattern) {
            Err(e) => {
                assert_eq!(e, BuildError::Unsupported(CompileError::ContainsLookAround));
                assert_eq!(e.message(), "Pattern contains look-around");
            }
            Ok(_) => panic!("expected an error for {:?}", pattern),
        }
    }
}

#[test]
fn named_groups_are_reported_by_index() {
    let re = Regex::pike_vm(r"(?P<year>\d{4})-(?P<month>\d{2})").unwrap();
    let caps = re.find_captures(Input::new("in 2024-06")).unwrap();
    assert_eq!(caps.group_len(), 3);
    assert_eq!(caps.get(1).unwrap().as_str(), "2024");
    assert_eq!(caps.get(2).unwrap().as_str(), "06");
}
