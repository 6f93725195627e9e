use vrm::text::{chars_of, decimal_chars, decimal_string, is_one_byte, join_path, push_decimal, push_str, replace_str, str_eq};

#[test]
fn decimal_string_of_zero() {
    assert_eq!(decimal_string(0), "0");
}

#[test]
fn decimal_string_of_numbers() {
    assert_eq!(decimal_string(7), "7");
    assert_eq!(decimal_string(1234), "1234");
    assert_eq!(decimal_string(usize::MAX), usize::MAX.to_string());
}

#[test]
fn decimal_strings_differ_for_different_numbers() {
    assert_ne!(decimal_string(12), decimal_string(21));
    assert_ne!(decimal_string(10), decimal_string(100));
}

#[test]
fn decimal_chars_and_pushes() {
    assert_eq!(decimal_chars(305), vec!['3', '0', '5']);
    let mut out = vec!['x'];
    push_decimal(&mut out, 42);
    push_str(&mut out, "-é");
    assert_eq!(out, vec!['x', '4', '2', '-', 'é']);
}

#[test]
fn chars_and_equality() {
    assert_eq!(chars_of("aé"), vec!['a', 'é']);
    assert!(str_eq("abc", "abc"));
    assert!(!str_eq("abc", "abd"));
    assert!(!str_eq("abc", "ab"));
}

#[test]
fn one_byte_strings() {
    assert!(is_one_byte("a"));
    assert!(!is_one_byte("é"));
    assert!(!is_one_byte("ab"));
    assert!(!is_one_byte(""));
}

#[test]
fn replace_every_occurrence() {
    assert_eq!(replace_str("aXbXc", "X", "YY"), "aYYbYYc");
    assert_eq!(replace_str("none here", "X", "Y"), "none here");
    assert_eq!(replace_str("", "X", "Y"), "");
}

#[test]
fn replace_without_overlap_left_to_right() {
    assert_eq!(replace_str("aaa", "aa", "b"), "ba");
    assert_eq!(replace_str("aaaa", "aa", "b"), "bb");
    assert_eq!(replace_str("abab", "ab", ""), "");
}

#[test]
fn replace_agrees_with_std() {
    for (s, p, r) in [("Verifier Verifier", "Verifier", "Rule1Verifier"), ("x<%ID%>y<%ID+1%>", "<%ID%>", "3")] {
        assert_eq!(replace_str(s, p, r), s.replace(p, r));
    }
}

#[test]
fn join_relative_paths() {
    assert_eq!(join_path("a", "b"), "a/b");
    assert_eq!(join_path("a/", "b"), "a/b");
    assert_eq!(join_path("", "b"), "b");
    assert_eq!(join_path("/work/relayer", "configs"), "/work/relayer/configs");
}

#[test]
fn join_absolute_path_replaces_base() {
    assert_eq!(join_path("a", "/b"), "/b");
}

#[test]
fn join_matches_std_path() {
    for (b, r) in [("a", "b"), ("a/", "b"), ("/x/y", "z.txt"), ("a", "/abs")] {
        let expected = std::path::Path::new(b).join(r).to_str().unwrap().to_string();
        assert_eq!(join_path(b, r), expected);
    }
}

#[test]
fn nested_join_is_join_of_combined_path() {
    assert_eq!(join_path(&join_path("/w", "configs"), "agg_1.pk"), join_path("/w", "configs/agg_1.pk"));
    assert_eq!(join_path(&join_path("/w/", "configs"), "x"), join_path("/w/", "configs/x"));
}
