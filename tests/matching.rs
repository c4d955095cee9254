use detect_changed_files::matching::{match_pattern_component, split_path_components, MatchPath};

fn test_match_pattern_component(pattern: &str, text: &str) -> bool {
    let pattern_chars: Vec<char> = pattern.chars().collect();
    let text_chars: Vec<char> = text.chars().collect();
    match_pattern_component(&pattern_chars, &text_chars)
}

fn path_match(pattern: &str, text: &str) -> bool {
    MatchPath::from_str(pattern).is_match(&MatchPath::from_str(text))
}

#[test]
fn component_multiple_star_wildcards() {
    assert!(test_match_pattern_component("a*b*c", "a123b456c"));
    assert!(test_match_pattern_component("a*b*c", "abc"));
    assert!(!test_match_pattern_component("a*b*c", "a123b456c789"));
    assert!(!test_match_pattern_component("a*b*c", "a123d456c"));
    assert!(!test_match_pattern_component("a*b*c", "a123b"));
    assert!(test_match_pattern_component("*", "anything"));
    assert!(test_match_pattern_component("a*", "a"));
    assert!(test_match_pattern_component("*a", "a"));
    assert!(test_match_pattern_component("a*b*", "ab"));
}

#[test]
fn component_question_wildcard() {
    assert!(test_match_pattern_component("a?b", "a1b"));
    assert!(!test_match_pattern_component("a?b", "ab"));
    assert!(!test_match_pattern_component("a?b", "abx"));
    assert!(test_match_pattern_component("a?b", "acb"));
    assert!(test_match_pattern_component("a?b?", "a1b2"));
    assert!(!test_match_pattern_component("a?b?", "a1b"));
    assert!(!test_match_pattern_component("a?b?", "a1b2c"));
}

#[test]
fn component_exact_match() {
    assert!(test_match_pattern_component("abc", "abc"));
    assert!(!test_match_pattern_component("abc", "abcd"));
    assert!(!test_match_pattern_component("abc", "ab"));
    assert!(!test_match_pattern_component("abc", "abx"));
    assert!(test_match_pattern_component("a?c", "abc"));
}

#[test]
fn component_complex_patterns() {
    assert!(test_match_pattern_component("a*b?c", "a123b4c"));
    assert!(!test_match_pattern_component("a*b?c", "a123b456c"));
    assert!(test_match_pattern_component("a*b?c?d*", "a123b4c7d89"));
    assert!(!test_match_pattern_component("a*b?c", "a123b456c789"));
    assert!(!test_match_pattern_component("a*b?c", "a123d456c"));
    assert!(!test_match_pattern_component("a*b?c", "a123b"));
    assert!(test_match_pattern_component("a*b?c*", "a123b4c56"));
    assert!(!test_match_pattern_component("a*b?c*", "a123b456d789"));
}

#[test]
fn split_path_components_test() {
    let path: Vec<char> = "ab/cd/ef/gh/ij".chars().collect();
    let components = split_path_components(&path);
    assert_eq!(components.len(), 5);
}

#[test]
fn match_path_absolute_pattern_eq_text() {
    let pattern = MatchPath::from_str("/ab/cd/ef.zig");
    let text = MatchPath::from_str("ab/cd/ef.zig");
    assert!(pattern.is_match(&text));

    let rel = MatchPath::from_str("foo/bar/ab/cd/ef.ghi");
    assert!(!pattern.is_match(&rel));
}

#[test]
fn match_path_relative_pattern_eq_text() {
    let pattern = MatchPath::from_str("ab/cd/ef.zig");
    let text = MatchPath::from_str("ab/cd/ef.zig");
    assert!(pattern.is_match(&text));

    let deep = MatchPath::from_str("foo/bar/ab/cd/ef.zig");
    assert!(pattern.is_match(&deep));

    let nope = MatchPath::from_str("ab/cd/ef.ghi");
    assert!(!pattern.is_match(&nope));

    let nope2 = MatchPath::from_str("aaaaaab/cd/ef.ghi");
    assert!(!pattern.is_match(&nope2));
}

#[test]
fn match_path_leading_double_star() {
    let pattern = MatchPath::from_str("**/ef.zig");

    let single = MatchPath::from_str("foo/ef.zig");
    assert!(pattern.is_match(&single));

    let multiple = MatchPath::from_str("ab/cd/ef.zig");
    assert!(pattern.is_match(&multiple));

    let nope = MatchPath::from_str("ef.zig");
    assert!(!pattern.is_match(&nope));
}

#[test]
fn match_path_trailing_double_star() {
    let pattern = MatchPath::from_str("ab/cd/**");

    let single = MatchPath::from_str("ab/cd/ef.zig");
    assert!(pattern.is_match(&single));

    let multiple = MatchPath::from_str("ab/cd/ef/gh.zig");
    assert!(pattern.is_match(&multiple));

    let nope = MatchPath::from_str("ab/cd");
    assert!(!pattern.is_match(&nope));
}

#[test]
fn match_path_double_star_in_middle() {
    let pattern = MatchPath::from_str("ab/**/cd/ef.zig");

    let single = MatchPath::from_str("ab/foo/cd/ef.zig");
    assert!(pattern.is_match(&single));

    let multiple = MatchPath::from_str("ab/foo/bar/cd/ef.zig");
    assert!(pattern.is_match(&multiple));

    let nope = MatchPath::from_str("ab/cd/ef.zig");
    assert!(!pattern.is_match(&nope));
}

#[test]
fn match_path_complex_pattern_with_double_star_and_question() {
    let pattern = MatchPath::from_str("ab/cd/**/e?f/gh.zig");

    let single = MatchPath::from_str("ab/cd/foo/e3f/gh.zig");
    assert!(pattern.is_match(&single));

    let nope = MatchPath::from_str("ab/cd/foo/e33f/gh.zig");
    assert!(!pattern.is_match(&nope));
}

#[test]
fn match_path_double_double_star() {
    let pattern = MatchPath::from_str("ab/**/cd/**/ef.zig");

    let single = MatchPath::from_str("ab/foo/cd/bar/ef.zig");
    assert!(pattern.is_match(&single));

    let multiple = MatchPath::from_str("ab/foo/cd/bar/baz/ef.zig");
    assert!(pattern.is_match(&multiple));

    let nope = MatchPath::from_str("ab/cd/ef.zig");
    assert!(!pattern.is_match(&nope));
}

#[test]
fn match_path_with_utf8_strings() {
    let pattern = MatchPath::from_str("ab/**/e⚡f/g?h/ij.zig");
    let text = MatchPath::from_str("ab/⚡/e⚡f/g⚡h/ij.zig");
    assert!(pattern.is_match(&text));
}

#[test]
fn construction_is_repeatable() {
    for s in ["", "/", "a", "/ab//cd/", "ab/cd/ef", "//x///y//"] {
        let a = MatchPath::from_str(s);
        let b = MatchPath::from_str(s);
        assert_eq!(format!("{:?}", a), format!("{:?}", b));
        let ta = MatchPath::from_str("q/ab/cd/x");
        assert_eq!(a.is_match(&ta), b.is_match(&ta));
    }
}

#[test]
fn split_drops_empty_runs() {
    let path: Vec<char> = "//ab///cd/".chars().collect();
    assert_eq!(split_path_components(&path).len(), 2);
    let empty: Vec<char> = Vec::new();
    assert_eq!(split_path_components(&empty).len(), 0);
    let slashes: Vec<char> = "///".chars().collect();
    assert_eq!(split_path_components(&slashes).len(), 0);
}

#[test]
fn absolute_pattern_is_anchored() {
    assert!(path_match("/ab/cd/ef", "ab/cd/ef"));
    assert!(!path_match("/ab/cd/ef", "x/ab/cd/ef"));
}

#[test]
fn relative_pattern_matches_at_any_depth() {
    assert!(path_match("ab/cd", "ab/cd"));
    assert!(path_match("ab/cd", "x/y/ab/cd"));
}

#[test]
fn trailing_double_star_takes_the_rest() {
    assert!(path_match("ab/cd/**", "ab/cd/e"));
    assert!(path_match("ab/cd/**", "ab/cd/e/f"));
    assert!(!path_match("ab/cd/**", "ab"));
    assert!(!path_match("ab/cd/**", "ab/cx"));
}

#[test]
fn leading_double_star_takes_the_prefix() {
    assert!(path_match("**/ef", "x/ef"));
    assert!(path_match("**/ef", "x/y/ef"));
    assert!(!path_match("**/ef", "ef2"));
}

#[test]
fn middle_double_star_needs_a_component() {
    assert!(path_match("ab/**/cd", "ab/x/cd"));
    assert!(path_match("ab/**/cd", "ab/x/y/cd"));
    assert!(!path_match("ab/**/cd", "ab/cd"));
}

#[test]
fn directory_pattern_matches_contents() {
    assert!(path_match("ab/cd/", "ab/cd/e"));
    assert!(path_match("ab/cd/", "ab/cd/e/f/g"));
    assert!(path_match("ab/cd/", "x/ab/cd/e"));
    assert!(!path_match("ab/cd/", "ab/ce/e"));
    assert!(!path_match("ab/cd/", "ab"));
}

#[test]
fn empty_pattern_matches_only_empty_path() {
    assert!(path_match("", ""));
    assert!(path_match("/", "//"));
    assert!(!path_match("", "a"));
    assert!(!path_match("/", "a/"));
}

#[test]
fn star_and_question_on_edges() {
    assert!(test_match_pattern_component("*", ""));
    assert!(test_match_pattern_component("*", "x"));
    assert!(!test_match_pattern_component("?", ""));
    assert!(test_match_pattern_component("?", "x"));
    assert!(!test_match_pattern_component("?", "xy"));
    assert!(test_match_pattern_component("", ""));
    assert!(!test_match_pattern_component("", "a"));
    assert!(test_match_pattern_component("**", ""));
}

#[test]
fn unicode_counts_characters() {
    assert!(test_match_pattern_component("?", "⚡"));
    assert!(test_match_pattern_component("é?ü", "éßü"));
    assert!(!test_match_pattern_component("??", "⚡"));
    assert!(path_match("src/⚡/*.rs", "src/⚡/main.rs"));
    assert!(!path_match("src/⚡/*.rs", "src/⚡⚡/main.rs"));
}

fn naive(p: &[char], t: &[char]) -> bool {
    if p.is_empty() {
        return t.is_empty();
    }
    match p[0] {
        '*' => (0..=t.len()).any(|k| naive(&p[1..], &t[k..])),
        '?' => !t.is_empty() && naive(&p[1..], &t[1..]),
        c => !t.is_empty() && t[0] == c && naive(&p[1..], &t[1..]),
    }
}

#[test]
fn table_agrees_with_backtracking() {
    let mut state: u64 = 0x2545_f491_4f6c_dd1d;
    let mut next = move || {
        state ^= state << 13;
        state ^= state >> 7;
        state ^= state << 17;
        state
    };
    let pat_alphabet = ['a', 'b', '*', '?'];
    let text_alphabet = ['a', 'b'];
    for _ in 0..3000 {
        let pl = (next() % 9) as usize;
        let tl = (next() % 21) as usize;
        let p: Vec<char> = (0..pl).map(|_| pat_alphabet[(next() % 4) as usize]).collect();
        let t: Vec<char> = (0..tl).map(|_| text_alphabet[(next() % 2) as usize]).collect();
        assert_eq!(match_pattern_component(&p, &t), naive(&p, &t), "{:?} {:?}", p, t);
    }
}

#[test]
fn adversarial_component_is_fast() {
    let p: Vec<char> = "a*a*a*a*a*a*a*a*a*a*a*a*b".chars().collect();
    let t: Vec<char> = std::iter::repeat('a').take(400).collect();
    assert!(!match_pattern_component(&p, &t));
}
