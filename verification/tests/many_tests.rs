use gregex::regex::Regex;
use gregex::util::Input;

/// Matches a pattern against an input with this library and with the
/// `regex` crate, and compares what the two compile and find.
fn check_all_engines(pattern: &str, input: &str) {
    let rust = regex::Regex::new(pattern);
    let ours = Regex::pike_vm(pattern);

    match (rust, ours) {
        (Ok(rust_re), Ok(engine)) => {
            // find
            let rust_match = rust_re.find(input).map(|m| (m.start(), m.end()));
            let my_match = engine.find(Input::new(input)).map(|m| (m.span.from, m.span.to));
            assert_eq!(
                my_match, rust_match,
                "Mismatch for pattern {:?} input {:?} (find)",
                pattern, input
            );

            // is_match
            assert_eq!(
                engine.is_match(Input::new(input)),
                rust_re.is_match(input),
                "Mismatch for pattern {:?} input {:?} (is_match)",
                pattern,
                input
            );

            // find_all
            let rust_all: Vec<_> = rust_re.find_iter(input).map(|m| (m.start(), m.end())).collect();
            let my_all: Vec<_> = engine
                .find_all(Input::new(input))
                .collect()
                .iter()
                .map(|m| (m.span.from, m.span.to))
                .collect();
            assert_eq!(
                my_all, rust_all,
                "Mismatch for pattern {:?} input {:?} (find_all)",
                pattern, input
            );

            // find_captures
            let rust_caps = rust_re.captures(input);
            let rust_groups = rust_caps.as_ref().map(|caps| {
                (0..caps.len()).map(|i| caps.get(i).map(|m| m.as_str())).collect::<Vec<_>>()
            });
            let my_caps = engine.find_captures(Input::new(input));
            let my_groups = my_caps.as_ref().map(|caps| {
                (0..caps.group_len()).map(|i| caps.get(i).map(|g| g.as_str())).collect::<Vec<_>>()
            });
            assert_eq!(
                my_groups, rust_groups,
                "Mismatch for pattern {:?} input {:?} (find_captures)",
                pattern, input
            );

            // find_all_captures
            let rust_all_caps: Vec<Vec<Option<&str>>> = rust_re
                .captures_iter(input)
                .map(|caps| (0..caps.len()).map(|i| caps.get(i).map(|m| m.as_str())).collect())
                .collect();
            let my_all_caps: Vec<Vec<Option<&str>>> = engine
                .find_all_captures(Input::new(input))
                .collect()
                .iter()
                .map(|caps| (0..caps.group_len()).map(|i| caps.get(i).map(|g| g.as_str())).collect())
                .collect();
            assert_eq!(
                my_all_caps, rust_all_caps,
                "Mismatch for pattern {:?} input {:?} (find_all_captures)",
                pattern, input
            );
        }
        (Err(_), Err(_)) => {}
        (Ok(_), Err(e)) => panic!("Our engine failed to compile but the regex crate succeeded: {:?}", e),
        (Err(e), Ok(_)) => panic!("The regex crate failed to compile but our engine succeeded: {e}"),
    }
}

#[test]
fn test_many() {
    const CASES: &[(&str, &str)] = &[
        (r"\d+", "abc123def"),
        (r"foo", "foobar"),
        (r"bar", "foobar"),
        (r"baz", "foobar"),
        (r"(\w+)-(\d+)", "test-42"),
        (r"(\d+)?", ""),
        (r"[a-z]{3}", "xyz"),
        (r"invalid[", "anything"),
        (r"\d+=\d+", "124221=12323=2=abd"),
        (
            r"Sherlock Holmes|Shrelock Holm|John Watson|Irene Adler|Inspector Lestrade|Professor Moriarty",
            "Professor Moriarty
            Sherlock Holmes
            John Watson
            Irene Adler
            ",
        ),
        (
            r".*d",
            "aaaaaaaaaaaaaaaaaaaaaaaaaaaaaaaaaaaaaaaaaaaaaaaaaaaaaaaaaaaaaaaaaaaaaaaaaaaaaaaaaaaaaad",
        ),
        (r"^$", ""),
        (r"^[a-z]+@[a-z]+\.com$", "foo@bar.com foo@baz.com"),
        (r"\s+", "a b\tc\nd"),
        (r"(?m)^foo", "foobar\nfoo\nbarfoo"),
        (r"bar$", "foobar\nfoo\nbarfoo"),
        (r"colou?r", "color colour colouur"),
        (r"ab{2,4}c", "abc abbc abbbc abbbbc abbbbbc"),
        (r"(?:abc)+", "abcabcabcx"),
        (r"(?i)abc", "ABC abc AbC"),
        (r"[A-Z]{2,}", "abc DEF GHI jkl"),
        (r"[^0-9]+", "abc123!@#"),
        (r"^foo", "foo\nbar\nfoo\nbaz"),
        (r"(?m)^foo$", "foo\nbar\nfoo\nbaz"),
        (r"(?mR)^foo$", "foo\r\nbar\r\nfoo\nbaz\nfoo"),
        (r".*[^A-Z]|[A-Z]", "AAAAAAAAAAAAAAAAAAAA"),
        (r".*[^A-Z]|[A-Z]", "AAAAB"),
        (r".*[^A-Z]|[A-Z]", "AABAB"),
        (
            r"(\s*)((?:# [Nn][Oo][Qq][Aa])(?::\s?(([A-Z]+[0-9]+(?:[,\s]+)?)+))?)",
            "                     # noqua:A123A                                                                                       # noqa
                                    # noqa
                                    # noqa            # noqua:A123A
                                    # noqa
                                    # noqa            # noqua:A123A
                                    # noqa            # noqua:A123A
                                    # noqa            # noqua:A123A
                                    # noqa            # noqua:A123A
                                    # noqa            # noqua:A123A
                                    # noqa            # noqua:A123A
                                    # noqa            # noqua:A123A
                                    # noqa            # noqua:A123A
                                    # noqa            # noqua:A123A
                                    # noqa            # noqua:A123A
                                    # noqa            # noqua:A123A
                                    # noqa            # noqua:A123A
                                    # noqa            # noqua:A123A
                                    # noqa            # noqua:A123A
                                    # noqa            # noqua:A123A
                                    # noqa            # noqua:A123A
                                    # noqa            # noqua:A123A
                                    # noqa            # noqua:A123A
                                    # noqa            # noqua:A123A
                                    # noqa            # noqua:A123A
                                    # noqa            # noqua:A123A
                                    # noqa            # noqua:A123A
                                    # noqa            # noqua:A123A
                                    # noqa            # noqua:A123A
                                    # noqa            # noqua:A123A
                                    # noqa            # noqua:A123A
                                    # noqa            # noqua:A123A
                                    # noqa            # noqua:A123A
                                    # noqa            # noqua:A123A
                                    # noqa            # noqua:A123A
                                    # noqa            # noqua:A123A
                                    # noqa            # noqua:A123A
                                    # noqa            # noqua:A123A
                                    # noqa            # noqua:A123A
                                    # noqa            # noqua:A123A
                                    # noqa            # noqua:A123A
                                    # noqa            # noqua:A123A
                                    # noqa            # noqua:A123A
                                    # noqa            # noqua:A123A
                                    # noqa            # noqua:A123A
                                    # noqa            # noqua:A123A
                                    # noqa            # noqua:A123A
                                    # noqa            # noqua:A123A
                                    # noqa            # noqua:A123A
                                    # noqa            # noqua:A123A
                                    # noqa            # noqua:A123A
                                    # noqa            # noqua:A123A
                                    # noqa            # noqua:A123A
                                    # noqa            # noqua:A123A
                                    # noqa            # noqua:A123A
                                    # noqa            # noqua:A123A
                                    # noqa            # noqua:A123A
                                    # noqa            # noqua:A123A
                                    # noqa            # noqua:A123A
                                    # noqa            # noqua:A123A
                                    # noqa            # noqua:A123A
                                    # noqa            # noqua:A123A
                                    # noqa            # noqua:A123A
                                    # noqa            # noqua:A123A
                                    # noqa            # noqua:A123A
                                    # noqa            # noqua:A123A
                                    # noqa            # noqua:A123A
                                    # noqa            # noqua:A123A
                                    # noqa            # noqua:A123A
                                    # noqa            # noqua:A123A
                                    # noqa            # noqua:A123A
                                    # noqa            # noqua:A123A
                                    # noqa            # noqua:A123A
                                    # noqa            # noqua:A123A
                                    # noqa            # noqua:A123A
                                    # noqa            # noqua:A123A
                                    # noqa            # noqua:A123A
                                    # noqa            # noqua:A123A
                                    # noqa            # noqua:A123A
                                    # noqa            # noqua:A123A
                                    # noqa            # noqua:A123A
                                    # noqa            # noqua:A123A
                                    # noqa            # noqua:A123A
                                    # noqa            # noqua:A123A
                                    # noqa            # noqua:A123A
                                    # noqa            # noqua:A123A
                                    # noqa            # noqua:A123A
                                    # noqa            # noqua:A123A
                                    # noqa            # noqua:A123A
                                    # noqa            # noqua:A123A
                                    # noqa            # noqua:A123A
                                    # noqa            # noqua:A123A
                                    # noqa            # noqua:A123A
                                    # noqa            # noqua:A123A
                                    # noqa            # noqua:A123A
                                    # noqa            # noqua:A123A
                                    # noqa            # noqua:A123A
                                    # noqa            # noqua:A123A
                                    # noqa            # noqua:A123A
                                    # noqa            # noqua:A123A
                                    # noqa            # noqua:A123A
                                    # noqa            # noqua:A123A
                                    # noqa            # noqua:A123A
                                    # noqa            # noqua:A123A
                                    # noqa            # noqua:A123A
                                    # noqa            # noqua:A123A
                                    # noqa            # noqua:A123A
                                    # noqa            # noqua:A123A
                                    # noqa            # noqua:A123A
                                    # noqa            # noqua:A123A
                                    # noqa            # noqua:A123A
                                    # noqa            # noqua:A123A
                                    # noqa            # noqua:A123A
                                    # noqa            # noqua:A123A
                                    # noqa            # noqua:A123A
                                    # noqa            # noqua:A123A
                                    # noqa            # noqua:A123A
                                    # noqa            # noqua:A123A
                                    # noqa            # noqua:A123A
                                    # noqa            # noqua:A123A
                                    # noqa            # noqua:A123A
                                    # noqa            # noqua:A123A
                                    # noqa            # noqua:A123A
                                    # noqa            # noqua:A123A
                                    # noqa            # noqua:A123A
                                    # noqa            # noqua:A123A
                                    # noqa            # noqua:A123A
                                    # noqa            # noqua:A123A
                                    # noqa            # noqua:A123A
                                    # noqa            # noqua:A123A
                                    # noqa            # noqua:A123A
                                    # noqa            # noqua:A123A
                                    # noqa            # noqua:A123A
                                    # noqa            # noqua:A123A
                                    # noqa            # noqua:A123A
                                    # noqa            # noqua:A123A
                                    # noqa            # noqua:A123A
                                    # noqa            # noqua:A123A
                                    # noqa            # noqua:A123A
                                    # noqa            # noqua:A123A
                                    # noqa            # noqua:A123A
                                    # noqa            # noqua:A123A
                                    # noqa            # noqua:A123A
                                    # noqa            # noqua:A123A
                                    # noqa            # noqua:A123A
                                    # noqa            # noqua:A123A
                                    # noqa            # noqua:A123A
                                    # noqa            # noqua:A123A
                                    # noqa            # noqua:A123A
                                    # noqa            # noqua:A123A
                                    # noqa            # noqua:A123A
                                    # noqa            # noqua:A123A
                                    # noqa            # noqua:A123A
                                    # noqa            # noqua:A123A
                                    # noqa            # noqua:A123A
                                    # noqa            # noqua:A123A
                                    # noqa            # noqua:A123A
                                    # noqa            # noqua:A123A
                                    # noqa            # noqua:A123A
                                    # noqa            # noqua:A123A
                                    # noqa            # noqua:A123A
                                    # noqa            # noqua:A123A
                                    # noqa            # noqua:A123A
                                    # noqa            # noqua:A123A
                                    # noqa            # noqua:A123A
                                    # noqa            # noqua:A123A
                                    # noqa            # noqua:A123A
                                    # noqa            # noqua:A123A
                                    # noqa            # noqua:A123A
                                    # noqa            # noqua:A123A
                                    # noqa            # noqua:A123A
                                    # noqa            # noqua:A123A
                                    # noqa            # noqua:A123A
                                    # noqa            # noqua:A123A
                                    # noqa            # noqua:A123A
                                    # noqa            # noqua:A123A
                                    # noqa            # noqua:A123A
                                    # noqa            # noqua:A123A
                                    # noqa            # noqua:A123A
                                    # noqa            # noqua:A123A
                                    # noqa            # noqua:A123A
                                    # noqa            # noqua:A123A
                                    # noqa            # noqua:A123A
                                    # noqa            # noqua:A123A
                                    # noqa            # noqua:A123A
                                    # noqa            # noqua:A123A
                                    # noqa            # noqua:A123A
                                    # noqa            # noqua:A123A
                                    # noqa            # noqua:A123A
                                    # noqa            # noqua:A123A
                                    # noqa            # noqua:A123A
                                    # noqa            # noqua:A123A
                                    # noqa            # noqua:A123A
                                    # noqa            # noqua:A123A
                                    # noqa            # noqua:A123A
                                    # noqa            # noqua:A123A
                                    # noqa            # noqua:A123A
                                    # noqa            # noqua:A123A
                                    # noqa            # noqua:A123A
                                    # noqa            # noqua:A123A
                                    # noqa            # noqua:A123A
                                    # noqa            # noqua:A123A
                                    # noqa            # noqua:A123A
                                    # noqa            # noqua:A123A
                                    # noqa            # noqua:A123A
                                    # noqa            # noqua:A123A
                                    # noqa            # noqua:A123A
                                    # noqa            # noqua:A123A
                                    # noqa            # noqua:A123A
                                    # noqa            # noqua:A123A
                                    # noqa            # noqua:A123A
                                    # noqa            # noqua:A123A
                                    # noqa            # noqua:A123A
                                    # noqa            # noqua:A123A
                                    # noqa            # noqua:A123A
                                    # noqa            # noqua:A123A
                                    # noqa            # noqua:A123A
                                    # noqa            # noqua:A123A
                                    # noqa            # noqua:A123A
                                    # noqa            # noqua:A123A
                                    # noqa            # noqua:A123A
                                    # noqa            # noqua:A123A
                                    # noqa            # noqua:A123A
                                    # noqa            # noqua:A123A
                                    # noqa            # noqua:A123A
                                    # noqa            # noqua:A123A
                                    # noqa            # noqua:A123A
                                    # noqa            # noqua:A123A
                                    # noqa            # noqua:A123A
                                    # noqa            # noqua:A123A
                                    # noqa            # noqua:A123A
                                    # noqa            # noqua:A123A
                                    # noqa            # noqua:A123A
                                    # noqa            # noqua:A123A
                                    # noqa            # noqua:A123A
                                    # noqa            # noqua:A123A
                                    # noqa            # noqua:A123A
                                    # noqa            # noqua:A123A
                                    # noqa            # noqua:A123A
                                    # noqa            # noqua:A123A
                                    # noqa            # noqua:A123A
                                    # noqa            # noqua:A123A
                                    # noqa            # noqua:A123A
                                    # noqa            # noqua:A123A
                                    # noqa            # noqua:A123A
                                    # noqa            # noqua:A123A
                                    # noqa            # noqua:A123A
                                    # noqa            # noqua:A123A
                                    # noqa            # noqua:A123A
                                    # noqa            # noqua:A123A
                                    # noqa            # noqua:A123A
                                    # noqa            # noqua:A123A




















































































































































                                     # noqa            # noqua:A123A
                                    # noqa
                                    # noqa
                                    # noqa
                                    # noqa
                                    # noqa
                                    # noqa
                                    # noqa
                                    # noqa
                                    # noqa
                                    # noqa
                                    # noqa
                                    # noqa
                                    # noqa
                                    # noqa
                                    # noqa
                                    # noqa
                                    # noqa
                                    # noqa
                                    # noqa
                                    # noqa
                                    # noqa
                                    # noqa
                                    # noqa
                                    # noqa
                                    # noqa
                                    # noqa
                                    # noqa
                                    # noqa
                                    # noqa
                                    # noqa
                                    # noqa
                                    # noqa
                                    # noqa
                                    # noqa
                                    # noqa
                                    # noqa
                                    # noqa
                                    # noqa
                                    # noqa
                                    # noqa
                                    # noqa
                                    # noqa
                                    # noqa
                                    # noqa
                                    # noqa
                                    # noqa
                                    # noqa
                                    # noqa
                                    # noqa
                                    # noqa
                                    # noqa
                                    # noqa
                                    # noqa
                                    # noqa
                                    # noqa
                                    # noqa
                                    # noqa
                                    # noqa
                                    # noqa
                                    # noqa
                                    # noqa
                                    # noqa
                                    # noqa
                                    # noqa
                                    # noqa
                                    # noqa
                                    # noqa
                                    # noqa
                                    # noqa
                                    # noqa
                                    # noqa
                                    # noqa
                                    # noqa
                                    # noqa
                                    # noqa
                                    # noqa
                                    # noqa
                                    # noqa
                                    # noqa
                                    # noqa
                                    # noqa
                                    # noqa
                                    # noqa
                                    # noqa
                                    # noqa
                                    # noqa
                                    # noqa
                                    # noqa
                                    # noqa
                                    # noqa
                                    # noqa
                                    # noqa
                                    # noqa
                                    # noqa
                                    # noqa
                                    # noqa
                                    # noqa
                                    # noqa
                                    # noqa
                                    # noqa
                                    # noqa
                                    # noqa
                                    # noqa
                                    # noqa
                                    # noqa
                                    # noqa
                                    # noqa
                                    # noqa
                                    # noqa
                                    # noqa
                                    # noqa
                                    # noqa
                                    # noqa
                                    # noqa
                                    # noqa
                                    # noqa
                                    # noqa
                                    # noqa
                                    # noqa
                                    # noqa
                                    # noqa
                                    # noqa
                                    # noqa
                                    # noqa
                                    # noqa
                                    # noqa
                                    # noqa
                                    # noqa
                                    # noqa
                                    # noqa
                                    # noqa
                                    # noqa
                                    # noqa
                                    # noqa
                                    # noqa
                                    # noqa
                                    # noqa
                                    # noqa
                                    # noqa
                                    # noqa
                                    # noqa
                                    # noqa
                                    # noqa
                                    # noqa
                                    # noqa
                                    # noqa
                                    # noqa
                                    # noqa
                                    # noqa
                                    # noqa
                                    # noqa
                                    # noqa
                                    # noqa
                                    # noqa
                                    # noqa
                                    # noqa
                                    # noqa
                                    # noqa
                                    # noqa
                                    # noqa
                                    # noqa
                                    # noqa
                                    # noqa
                                    # noqa
                                    # noqa
                                    # noqa
                                    # noqa
                                    # noqa
                                    # noqa
                                    # noqa
                                    # noqa
                                    # noqa
                                    # noqa
                                    # noqa
                                    # noqa
                                    # noqa
                                    # noqa
                                    # noqa
                                    # noqa
                                    # noqa
                                    # noqa
                                    # noqa
                                    # noqa
                                    # noqa
                                    # noqa
                                    # noqa
                                    # noqa
                                    # noqa
                                    # noqa
                                    # noqa
                                    # noqa
                                    # noqa
                                    # noqa
                                    # noqa
                                    # noqa
                                    # noqa
                                    # noqa
                                    # noqa
                                    # noqa
                                    # noqa
                                    # noqa
                                    # noqa
                                    # noqa
                                    # noqa
                                    # noqa
                                    # noqa
                                    # noqa
                                    # noqa
                                    # noqa
                                    # noqa
            ",
        ), //(r"\bword\b", "word sword words word."),
    ];
    for (pattern, input) in CASES {
        println!("Testing: {pattern} on {input}");
        check_all_engines(pattern, input);
    }
}
