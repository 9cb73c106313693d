use globber::syntax::Error;
use globber::Pattern;

fn compiles(p: &str) -> Pattern {
    Pattern::new(p).unwrap()
}

fn error_of(p: &str) -> Error {
    Pattern::new(p).unwrap_err().inner
}

#[test]
fn star_matches_every_input() {
    let p = compiles("*");
    for s in ["", "a", "abc", "/", "a/b/c", ".hidden", "x y"] {
        assert!(p.matches(s), "{:?}", s);
    }
}

#[test]
fn double_star_matches_every_input() {
    let p = compiles("**");
    for s in ["", "a", "/", "//", "a/b/c", "/x/.asdf", "a b/c"] {
        assert!(p.matches(s), "{:?}", s);
    }
}

#[test]
fn recursion_needs_separators() {
    assert_eq!(error_of("a**b"), Error::IllegalRecursion(1));
    assert_eq!(error_of("/**b"), Error::IllegalRecursion(1));
    assert_eq!(error_of("x/**y"), Error::IllegalRecursion(2));
    assert!(Pattern::new("x/**").is_ok());
    assert_eq!(error_of("x**"), Error::IllegalRecursion(1));
    assert!(Pattern::new("a/**").is_ok());
}

#[test]
fn empty_classes_fail() {
    assert_eq!(error_of("[]"), Error::EmptyRange(0));
    assert_eq!(error_of("[!]"), Error::EmptyRange(0));
}

#[test]
fn class_ranges_are_case_sensitive() {
    let p = compiles("a[a-z]c");
    assert!(p.matches("aac"));
    assert!(!p.matches("aAc"));
}

#[test]
fn recursive_wildcard_spans_zero_or_more_segments() {
    let p = compiles("some/**/needle.txt");
    assert!(p.matches("some/needle.txt"));
    assert!(p.matches("some/one/two/needle.txt"));
    assert!(!p.matches("some/one/two/haystack.txt"));
}

#[test]
fn negated_nested_groups() {
    let p = compiles("!(+(ab|def)*+(.jpg|.gif))");
    assert!(!p.matches("ab.jpg"));
    assert!(p.matches("ced.gif"));
}

#[test]
fn exactly_one_rejects_ambiguous_input() {
    let p = compiles("src/@([a-z]|[a-c]).rs");
    assert!(p.matches("src/d.rs"));
    assert!(!p.matches("src/a.rs"));
}

#[test]
fn compiling_twice_gives_equal_patterns() {
    for text in ["src/*([a-z]|[a-c]).rs", "some/**/needle.txt", "!(!(vec|test)).rs", "a[!0-9]?\\*"] {
        let p = compiles(text);
        let q = compiles(text);
        assert_eq!(p, q);
        for s in ["", "src/a.rs", "some/needle.txt", "vec.rs", "ab*", "a1c*", "x"] {
            assert_eq!(p.matches(s), q.matches(s));
        }
    }
}

#[test]
fn matching_is_repeatable() {
    let p = compiles("*.log");
    for _ in 0..3 {
        assert!(p.matches("sys.log"));
        assert!(!p.matches("sys.txt"));
    }
}

#[test]
fn empty_pattern_matches_only_empty_input() {
    let p = compiles("");
    assert!(p.matches(""));
    assert!(!p.matches("a"));
}

#[test]
fn question_mark_is_exactly_one_character() {
    let p = compiles("a?c");
    assert!(p.matches("abc"));
    assert!(p.matches("a/c"));
    assert!(!p.matches("ac"));
    assert!(!p.matches("abbc"));
    assert!(!compiles("?").matches(""));
}

#[test]
fn escapes_are_literal() {
    let p = compiles("\\*\\?");
    assert!(p.matches("*?"));
    assert!(!p.matches("ab"));
    assert_eq!(error_of("abc\\"), Error::IllegalEscape(3));
}

#[test]
fn group_errors() {
    assert_eq!(error_of("@()"), Error::IllegalOr(2));
    assert_eq!(error_of("x!()"), Error::IllegalOr(3));
    assert_eq!(error_of("@(abc"), Error::UnclosedPattern(4));
    assert_eq!(error_of("@(|a)"), Error::IllegalOr(2));
    assert_eq!(error_of("@(a||b)"), Error::IllegalOr(4));
    assert_eq!(error_of("@(a|)"), Error::IllegalOr(4));
    assert_eq!(error_of("@(a])"), Error::IllegalChar(3));
    assert_eq!(error_of("@(a[)"), Error::IllegalChar(4));
}

#[test]
fn stray_structural_characters() {
    assert_eq!(error_of("a)b"), Error::IllegalChar(1));
    assert_eq!(error_of("a|b"), Error::IllegalChar(1));
    assert_eq!(error_of("(a"), Error::IllegalChar(0));
    assert_eq!(error_of("ab]"), Error::IllegalChar(2));
}

#[test]
fn alternative_errors_are_local() {
    // the offset is counted from the start of the failing alternative
    assert_eq!(error_of("x@(ab|c[)"), Error::IllegalChar(8));
    assert_eq!(error_of("x@(ab|c\\)"), Error::UnclosedPattern(8));
    assert_eq!(error_of("x@(ab|c[])"), Error::EmptyRange(1));
}

#[test]
fn nested_group_alternatives() {
    let p = compiles("@(a@(b|c)|d)x");
    assert!(p.matches("abx"));
    assert!(p.matches("acx"));
    assert!(p.matches("dx"));
    assert!(!p.matches("ax"));
    assert!(!p.matches("adx"));
}

#[test]
fn class_members() {
    let p = compiles("[a-c-]");
    assert!(p.matches("b"));
    assert!(p.matches("-"));
    assert!(!p.matches("d"));
    let q = compiles("[!a-c]");
    assert!(q.matches("d"));
    assert!(!q.matches("a"));
    assert!(!q.matches(""));
}

#[test]
fn error_keeps_the_pattern_text() {
    let e = Pattern::new("a**b").unwrap_err();
    assert_eq!(e.input, "a**b");
    assert_eq!(e.inner.offset(), 1);
    assert_eq!(e.inner.desc(), "illegal recursion");
}

#[test]
fn error_message_points_at_the_offset() {
    let e = Pattern::new("ab[").unwrap_err();
    let rule = "-------------------------------------";
    let expected = format!("Glob syntax error\n{}\nempty range\nab[\n--^\n{}", rule, rule);
    assert_eq!(e.message(), expected);
    let e = Pattern::new("a**b").unwrap_err();
    let expected = format!("Glob syntax error\n{}\nillegal recursion\na**b\n-^\n{}", rule, rule);
    assert_eq!(e.message(), expected);
}

#[test]
fn parses_through_from_str() {
    let p: Pattern = "*.rs".parse().unwrap();
    assert!(p.matches("main.rs"));
    assert!(!p.matches("main.c"));
    assert!("[]".parse::<Pattern>().is_err());
}
