//! Text: lines, fields, numbers and ULIDs.

use elide_core::ids::Ulid;
use elide_core::text::{
    chars_of, decimal_chars, find_mark, join_fields, join_lines, nul_separated, split_lines,
    strip_prefix, strip_suffix, trim,
};

fn list(items: &[&str]) -> Vec<Vec<char>> {
    items.iter().map(|s| chars_of(s)).collect()
}

fn joined(items: &[Vec<char>]) -> Vec<String> {
    items.iter().map(|c| c.iter().collect()).collect()
}

#[test]
fn lines_are_split_as_they_are_joined() {
    let lines = list(&["first", "", "third"]);
    let text = join_lines(&lines);
    assert_eq!(text, chars_of("first\n\nthird\n"));
    assert_eq!(joined(&split_lines(&text)), vec!["first", "", "third"]);
}

#[test]
fn the_last_line_needs_no_end_and_a_carriage_return_belongs_to_it() {
    let text = chars_of("one\r\ntwo");
    assert_eq!(joined(&split_lines(&text)), vec!["one", "two"]);
    assert!(split_lines(&chars_of("")).is_empty());
}

#[test]
fn joined_fields_tell_where_one_ends() {
    let a = join_fields(&list(&["ab", "c"]), ';');
    let b = join_fields(&list(&["a", "bc"]), ';');
    assert_eq!(a, chars_of("ab;c"));
    assert_eq!(b, chars_of("a;bc"));
    assert_ne!(nul_separated(&list(&["ab", "c"])), nul_separated(&list(&["a", "bc"])));
}

#[test]
fn decimal_digits_of_the_ends_of_the_range() {
    assert_eq!(decimal_chars(0), chars_of("0"));
    assert_eq!(decimal_chars(10), chars_of("10"));
    assert_eq!(decimal_chars(u64::MAX), chars_of("18446744073709551615"));
}

#[test]
fn prefixes_suffixes_and_white_space_come_off() {
    let text = chars_of("key=value");
    assert_eq!(find_mark(&text, '='), 3);
    assert_eq!(strip_prefix(&text, "key="), Some(chars_of("value")));
    assert_eq!(strip_prefix(&text, "value"), None);
    assert_eq!(strip_suffix(&text, "=value"), Some(chars_of("key")));
    assert_eq!(strip_suffix(&text, "key"), None);
    assert_eq!(trim(&chars_of(" \t a b \n")), chars_of("a b"));
}

#[test]
fn ulid_text_orders_as_the_ulids_do() {
    let earlier = Ulid::from_parts(1_700_000_000_000, u128::MAX);
    let later = Ulid::from_parts(1_700_000_000_001, 0);
    assert!(earlier.value < later.value);
    assert!(earlier.to_text() < later.to_text());
    assert_eq!(earlier.to_text().len(), 26);
    assert_eq!(Ulid::from_string(&earlier.to_text()), Some(earlier));
    assert_eq!(Ulid::from_string("01ARZ3NDEKTSV4RRFFQ69G5FA"), None);
    assert_eq!(Ulid::from_string("01ARZ3NDEKTSV4RRFFQ69G5FAU"), None);
}
