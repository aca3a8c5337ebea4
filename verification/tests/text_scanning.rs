use bundler::path::{ModulePath, ModulePathBuf};
use bundler::text::{
    chars_of, find_separator, is_crate_rooted_chars, same_stretch, segments_prefix,
    starts_with_separator, text_eq,
};

fn segments(text: &str) -> Vec<String> {
    let mut out = Vec::new();
    let mut it = ModulePath::new(text).iter();
    while let Some(segment) = it.next() {
        out.push(segment.to_string());
    }
    out
}

#[test]
fn characters_come_in_order() {
    assert_eq!(chars_of("a::é"), vec!['a', ':', ':', 'é']);
    assert_eq!(chars_of(""), Vec::<char>::new());
}

#[test]
fn separator_is_found_from_the_left() {
    let chars = chars_of("ab::cd::e");
    assert_eq!(find_separator(&chars, 0), 2);
    assert_eq!(find_separator(&chars, 2), 2);
    assert_eq!(find_separator(&chars, 3), 6);
    assert_eq!(find_separator(&chars, 7), 9);
    assert_eq!(find_separator(&chars, 9), 9);
    assert_eq!(find_separator(&chars_of("a:b"), 0), 3);
    assert_eq!(find_separator(&chars_of(":::"), 0), 0);
    assert_eq!(find_separator(&chars_of(":::"), 1), 1);
}

#[test]
fn stretches_compare_by_their_characters() {
    let a = chars_of("xabcx");
    let b = chars_of("abcabd");
    assert!(same_stretch(&a, 1, 4, &b, 0, 3));
    assert!(!same_stretch(&a, 1, 4, &b, 3, 6));
    assert!(!same_stretch(&a, 1, 4, &b, 0, 2));
    assert!(same_stretch(&a, 2, 2, &b, 5, 5));
}

#[test]
fn texts_compare_by_their_characters() {
    assert!(text_eq("path", "path"));
    assert!(!text_eq("path", "paths"));
    assert!(!text_eq("path", "pbth"));
    assert!(text_eq("", ""));
}

#[test]
fn prefix_goes_by_whole_segments() {
    assert!(segments_prefix(&chars_of("a::b"), &chars_of("a::b::c")));
    assert!(segments_prefix(&chars_of(""), &chars_of("a")));
    assert!(segments_prefix(&chars_of(""), &chars_of("")));
    assert!(!segments_prefix(&chars_of("a::b"), &chars_of("a::bc")));
    assert!(!segments_prefix(&chars_of("a::b::c"), &chars_of("a::b")));
    assert!(!segments_prefix(&chars_of("a"), &chars_of("")));
}

#[test]
fn crate_root_is_the_first_segment() {
    assert!(is_crate_rooted_chars(&chars_of("crate")));
    assert!(is_crate_rooted_chars(&chars_of("crate::x")));
    assert!(!is_crate_rooted_chars(&chars_of("crates")));
    assert!(!is_crate_rooted_chars(&chars_of("crat")));
    assert!(!is_crate_rooted_chars(&chars_of("")));
}

#[test]
fn leading_separator_is_two_colons() {
    assert!(starts_with_separator("::a"));
    assert!(starts_with_separator("::"));
    assert!(!starts_with_separator(":a"));
    assert!(!starts_with_separator("a::"));
    assert!(!starts_with_separator(""));
}

#[test]
fn text_is_cut_at_separators_read_from_the_left() {
    assert_eq!(segments("a::b"), vec!["a", "b"]);
    assert_eq!(segments("a::"), vec!["a", ""]);
    assert_eq!(segments("::a"), vec!["", "a"]);
    assert_eq!(segments("a:::b"), vec!["a", ":b"]);
    assert_eq!(segments("a:b"), vec!["a:b"]);
    assert_eq!(segments("::::"), vec!["", "", ""]);
    assert_eq!(segments(""), Vec::<String>::new());
}

#[test]
fn pop_goes_by_the_same_segments() {
    let mut trailing = ModulePathBuf::from("a::");
    assert!(trailing.pop());
    assert_eq!(trailing.as_str(), "a");
    let mut odd = ModulePathBuf::from("a:::b");
    assert!(odd.pop());
    assert_eq!(odd.as_str(), "a");
    let mut lone = ModulePathBuf::from("a:b");
    assert!(!lone.pop());
    assert_eq!(lone.as_str(), "a:b");
}

#[test]
fn push_of_the_empty_suffix_adds_an_empty_segment() {
    let mut buf = ModulePathBuf::from("a");
    buf.push("").unwrap();
    assert_eq!(buf.as_str(), "a::");
    assert_eq!(segments(buf.as_str()), vec!["a", ""]);
}
