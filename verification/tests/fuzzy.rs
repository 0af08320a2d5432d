use blaise::fuzzy::distance;

#[test]
fn fuzzy_fuzzy_empty_vs_empty() {
    let dist = distance("", "");
    assert_eq!(dist, 0);
}

#[test]
fn fuzzy_fuzzy_empty_vs_nonempty() {
    let dist = distance("", "abc");
    assert_eq!(dist, 3);
}

#[test]
fn fuzzy_fuzzy_nonempty_vs_empty() {
    let dist = distance("abc", "");
    assert_eq!(dist, 3);
}

#[test]
fn fuzzy_fuzzy_completely_different() {
    let dist = distance("kitten", "orange");
    assert_eq!(dist, 6);
}

#[test]
fn fuzzy_fuzzy_substitution() {
    let dist = distance("cat", "cut");
    assert_eq!(dist, 1);
}

#[test]
fn fuzzy_fuzzy_insertion() {
    let dist = distance("cat", "cart");
    assert_eq!(dist, 1);
}

#[test]
fn fuzzy_fuzzy_deletion() {
    let dist = distance("cart", "cat");
    assert_eq!(dist, 1);
}

#[test]
fn fuzzy_fuzzy_unicode_equal() {
    let dist = distance("café", "café");
    assert_eq!(dist, 0);
}

#[test]
fn fuzzy_fuzzy_unicode_distinct() {
    let dist = distance("café", "cafe");
    assert_eq!(dist, 1);
}

#[test]
fn fuzzy_fuzzy_unicode_multi() {
    let dist = distance("😀😁😂", "😀😂😁");
    assert_eq!(dist, 2);
}

#[test]
fn fuzzy_fuzzy_prefix_changes() {
    let dist = distance("abcdef", "zbcdef");
    assert_eq!(dist, 1);
}

#[test]
fn fuzzy_fuzzy_suffix_changes() {
    let dist = distance("abcdef", "abcdez");
    assert_eq!(dist, 1);
}

#[test]
fn fuzzy_fuzzy_longer_sequence() {
    let dist = distance("intention", "execution");
    assert_eq!(dist, 5);
}

#[test]
fn fuzzy_tests_fuzzy_empty_vs_empty() {
    let dist = distance("", "");
    assert_eq!(dist, 0);
}

#[test]
fn fuzzy_tests_fuzzy_empty_vs_nonempty() {
    let dist = distance("", "abc");
    assert_eq!(dist, 3);
}

#[test]
fn fuzzy_tests_fuzzy_nonempty_vs_empty() {
    let dist = distance("abc", "");
    assert_eq!(dist, 3);
}

#[test]
fn fuzzy_tests_fuzzy_completely_different() {
    let dist = distance("kitten", "orange");
    assert_eq!(dist, 6);
}

#[test]
fn fuzzy_tests_fuzzy_substitution() {
    let dist = distance("cat", "cut");
    assert_eq!(dist, 1);
}

#[test]
fn fuzzy_tests_fuzzy_insertion() {
    let dist = distance("cat", "cart");
    assert_eq!(dist, 1);
}

#[test]
fn fuzzy_tests_fuzzy_deletion() {
    let dist = distance("cart", "cat");
    assert_eq!(dist, 1);
}

#[test]
fn fuzzy_tests_fuzzy_unicode_equal() {
    let dist = distance("café", "café");
    assert_eq!(dist, 0);
}

#[test]
fn fuzzy_tests_fuzzy_unicode_distinct() {
    let dist = distance("café", "cafe");
    assert_eq!(dist, 1);
}

#[test]
fn fuzzy_tests_fuzzy_unicode_multi() {
    let dist = distance("😀😁😂", "😀😂😁");
    assert_eq!(dist, 2);
}

#[test]
fn fuzzy_tests_fuzzy_prefix_changes() {
    let dist = distance("abcdef", "zbcdef");
    assert_eq!(dist, 1);
}

#[test]
fn fuzzy_tests_fuzzy_suffix_changes() {
    let dist = distance("abcdef", "abcdez");
    assert_eq!(dist, 1);
}

#[test]
fn fuzzy_tests_fuzzy_longer_sequence() {
    let dist = distance("intention", "execution");
    assert_eq!(dist, 5);
}

#[test]
fn fuzzy_distance_is_symmetric_on_examples() {
    let pairs = [("kitten", "sitting"), ("", "abc"), ("flaw", "lawn"), ("😀😁", "😁")];
    for (a, b) in pairs {
        assert_eq!(distance(a, b), distance(b, a));
    }
}

#[test]
fn fuzzy_distance_to_itself_is_zero() {
    for s in ["", "a", "stockholm", "göteborg"] {
        assert_eq!(distance(s, s), 0);
    }
}

#[test]
fn fuzzy_distance_is_at_most_the_longer_length() {
    assert_eq!(distance("abc", "xyz"), 3);
    assert!(distance("short", "much longer text") <= 16);
    assert_eq!(distance("kitten", "sitting"), 3);
}

#[test]
fn fuzzy_distance_zero_only_for_equal() {
    assert!(distance("abc", "abd") > 0);
    assert!(distance("a", "") > 0);
}
