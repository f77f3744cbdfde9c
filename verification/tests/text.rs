use source_select::text::{
    chars_contain, chars_end_with, chars_eq, chars_lt, chars_occur_at, chars_of, chars_start_with,
    split,
};

fn c(s: &str) -> Vec<char> {
    s.chars().collect()
}

fn strings(items: &[&str]) -> Vec<String> {
    items.iter().map(|s| s.to_string()).collect()
}

#[test]
fn chars_of_gives_the_characters_in_order() {
    assert_eq!(chars_of("héllo"), vec!['h', 'é', 'l', 'l', 'o']);
    assert_eq!(chars_of(""), Vec::<char>::new());
}

#[test]
fn order_is_lexicographic_and_case_sensitive() {
    assert!(chars_lt(&c("a"), &c("b")));
    assert!(!chars_lt(&c("b"), &c("a")));
    assert!(!chars_lt(&c("a"), &c("a")));
    assert!(chars_lt(&c(""), &c("a")));
    assert!(!chars_lt(&c("a"), &c("")));
    assert!(!chars_lt(&c(""), &c("")));
    assert!(chars_lt(&c("a"), &c("ab")));
    assert!(!chars_lt(&c("ab"), &c("a")));
    assert!(chars_lt(&c("Z"), &c("a")));
    assert!(chars_lt(&c("abc"), &c("abd")));
    assert!(chars_lt(&c("ab"), &c("b")));
    assert!(chars_lt(&c("z"), &c("é")));
}

#[test]
fn order_agrees_with_the_order_of_strings() {
    let words = ["", "a", "A", "ab", "b", "ba", "é", "z", "a.ts", "a-b", "a_b", "10", "9"];
    for x in words {
        for y in words {
            assert_eq!(chars_lt(&c(x), &c(y)), x < y, "{:?} against {:?}", x, y);
            assert_eq!(chars_eq(&c(x), &c(y)), x == y);
        }
    }
}

#[test]
fn occurrence_is_of_a_contiguous_run() {
    assert!(chars_contain(&c("a/node_modules/b"), &c("node_modules")));
    assert!(chars_contain(&c("abc"), &c("")));
    assert!(chars_contain(&c(""), &c("")));
    assert!(!chars_contain(&c(""), &c("a")));
    assert!(chars_contain(&c("abc"), &c("abc")));
    assert!(chars_contain(&c("abc"), &c("bc")));
    assert!(!chars_contain(&c("abc"), &c("ac")));
    assert!(!chars_contain(&c("abc"), &c("abcd")));
    assert!(chars_occur_at(&c("abc"), &c("bc"), 1));
    assert!(!chars_occur_at(&c("abc"), &c("bc"), 0));
    assert!(!chars_occur_at(&c("abc"), &c("bc"), 2));
    assert!(chars_occur_at(&c("abc"), &c(""), 3));
    assert!(!chars_occur_at(&c("abc"), &c(""), 4));
}

#[test]
fn prefixes_and_suffixes() {
    assert!(chars_start_with(&c(".git"), &c(".")));
    assert!(!chars_start_with(&c("a.git"), &c(".")));
    assert!(chars_start_with(&c("a"), &c("")));
    assert!(chars_end_with(&c("view.tsx"), &c(".tsx")));
    assert!(!chars_end_with(&c("view.ts"), &c(".tsx")));
    assert!(!chars_end_with(&c("tsx"), &c(".tsx")));
    assert!(chars_end_with(&c(".tsx"), &c(".tsx")));
}

#[test]
fn split_keeps_empty_pieces() {
    assert_eq!(split("a/b/c", '/'), strings(&["a", "b", "c"]));
    assert_eq!(split("/a//b/", '/'), strings(&["", "a", "", "b", ""]));
    assert_eq!(split("", '/'), strings(&[""]));
    assert_eq!(split("abc", '/'), strings(&["abc"]));
    assert_eq!(split("é.ü", '.'), strings(&["é", "ü"]));
}
