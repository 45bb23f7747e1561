use template_store::pattern::{make_search_pattern, matches_pattern};
use template_store::text::{chars_of, joined, text_equal, text_less, text_of};

fn like(text: &str, pattern: &str) -> bool {
    matches_pattern(&chars_of(text), &chars_of(pattern))
}

fn less(a: &str, b: &str) -> bool {
    text_less(&chars_of(a), &chars_of(b))
}

#[test]
fn characters_go_to_a_vector_and_back() {
    let v = chars_of("aé漢😀");
    assert_eq!(v, vec!['a', 'é', '漢', '😀']);
    assert_eq!(text_of(&v, 0, 4), "aé漢😀");
    assert_eq!(text_of(&v, 1, 3), "é漢");
    assert_eq!(text_of(&v, 2, 2), "");
    assert_eq!(chars_of(""), Vec::<char>::new());
    assert_eq!(joined("ab", "cd"), "abcd");
    assert_eq!(joined("", ""), "");
}

#[test]
fn text_is_ordered_by_code_point() {
    assert!(less("", "a"));
    assert!(!less("a", ""));
    assert!(!less("", ""));
    assert!(less("a", "b"));
    assert!(less("a", "aa"));
    assert!(less("ab", "b"));
    assert!(less("B", "a"));
    assert!(less("z", "é"));
    assert!(!less("abc", "abc"));
    assert!(!less("abd", "abc"));
    assert!(text_equal(&chars_of("abc"), &chars_of("abc")));
    assert!(!text_equal(&chars_of("abc"), &chars_of("abd")));
    assert!(!text_equal(&chars_of("abc"), &chars_of("ab")));
}

#[test]
fn text_order_agrees_with_the_order_of_strings() {
    let words = ["", "a", "A", "ab", "b", "é", "z", "漢", "😀", "a\u{0}", "~"];
    for a in words {
        for b in words {
            assert_eq!(less(a, b), a < b, "{:?} {:?}", a, b);
        }
    }
}

#[test]
fn a_pattern_without_wildcards_matches_itself_only() {
    assert!(like("", ""));
    assert!(like("abc", "abc"));
    assert!(!like("abc", "ab"));
    assert!(!like("ab", "abc"));
    assert!(!like("abc", "ABC"));
    assert!(!like("", "a"));
    assert!(!like("a", ""));
}

#[test]
fn percent_stands_for_any_run_and_underscore_for_one_character() {
    assert!(like("", "%"));
    assert!(like("anything", "%"));
    assert!(like("anything", "%%"));
    assert!(like("abc", "a%"));
    assert!(like("abc", "%c"));
    assert!(like("abc", "a%c"));
    assert!(like("ac", "a%c"));
    assert!(!like("ab", "a%c"));
    assert!(like("abc", "___"));
    assert!(!like("abc", "__"));
    assert!(!like("", "_"));
    assert!(like("a_c", "a_c"));
    assert!(like("abc", "a_c"));
    assert!(like("100%", "100%"));
    assert!(like("100 percent", "100%"));
    assert!(like("aXbXc", "%X%X%"));
    assert!(!like("aXbc", "%X%X%"));
    assert!(like("漢字", "_字"));
    assert!(like("mississippi", "%iss%pp_"));
    assert!(!like("mississippi", "%iss%pp"));
}

#[test]
fn the_search_pattern_is_the_keyword_between_two_percents() {
    assert_eq!(make_search_pattern(&chars_of("CT")), chars_of("%CT%"));
    assert_eq!(make_search_pattern(&chars_of("")), chars_of("%%"));
    assert_eq!(make_search_pattern(&chars_of("a%_b")), chars_of("%a%_b%"));
}
