use featspace::canonical::{canonical_features, concat_features, dedup_sorted, sort_features};
use featspace::hex::to_lower_hex;
use featspace::order::string_before;

fn names(items: &[&str]) -> Vec<String> {
    items.iter().map(|s| s.to_string()).collect()
}

fn texts(refs: &[&String]) -> Vec<String> {
    refs.iter().map(|s| s.to_string()).collect()
}

#[test]
fn string_before_is_strict() {
    assert!(string_before("a", "b"));
    assert!(!string_before("b", "a"));
    assert!(!string_before("a", "a"));
    assert!(!string_before("", ""));
}

#[test]
fn string_before_puts_prefix_first() {
    assert!(string_before("", "a"));
    assert!(!string_before("a", ""));
    assert!(string_before("foo", "foobar"));
    assert!(!string_before("foobar", "foo"));
    assert!(string_before("foo", "fop"));
    assert!(string_before("foobar", "fop"));
}

#[test]
fn string_before_goes_by_bytes() {
    assert!(string_before("Z", "a"));
    assert!(string_before("10", "9"));
    assert!(string_before("z", "\u{e9}"));
    assert!(string_before("\u{e9}", "\u{1f600}"));
    assert!(string_before("\u{ffff}", "\u{10000}"));
    assert!(!string_before("\u{e9}", "e"));
}

#[test]
fn string_before_agrees_with_std_order() {
    let samples = ["", "a", "aa", "ab", "b", "B", "\u{e9}", "e\u{301}", "\u{7f}", "\u{80}", "~"];
    for x in samples {
        for y in samples {
            assert_eq!(string_before(x, y), x < y, "{:?} {:?}", x, y);
        }
    }
}

#[test]
fn sort_keeps_repetitions() {
    let list = names(&["foo", "bar", "foo", "baz", "bar", "foo"]);
    let sorted = sort_features(&list);
    assert_eq!(texts(&sorted), names(&["bar", "bar", "baz", "foo", "foo", "foo"]));
}

#[test]
fn sort_of_short_lists() {
    let none = names(&[]);
    assert!(sort_features(&none).is_empty());
    let one = names(&["x"]);
    assert_eq!(texts(&sort_features(&one)), names(&["x"]));
    let two = names(&["y", "x"]);
    assert_eq!(texts(&sort_features(&two)), names(&["x", "y"]));
}

#[test]
fn sort_agrees_with_std_sort() {
    let list = names(&[
        "m", "c", "zz", "", "a", "Z", "c", "\u{e9}", "b", "aa", "ab", "a", "n", "0", "zz", "y",
        "q",
    ]);
    let mut expected = list.clone();
    expected.sort();
    assert_eq!(texts(&sort_features(&list)), expected);
}

#[test]
fn dedup_drops_adjacent_repetitions() {
    let list = names(&["bar", "bar", "baz", "foo", "foo", "foo"]);
    let sorted: Vec<&String> = list.iter().collect();
    assert_eq!(texts(&dedup_sorted(&sorted)), names(&["bar", "baz", "foo"]));
    let none: Vec<&String> = Vec::new();
    assert!(dedup_sorted(&none).is_empty());
}

#[test]
fn canonical_form_is_sorted_without_repetition() {
    let list = names(&["foo", "bar", "foo", "baz", "bar"]);
    assert_eq!(texts(&canonical_features(&list)), names(&["bar", "baz", "foo"]));
    let other = names(&["baz", "foo", "bar"]);
    assert_eq!(texts(&canonical_features(&other)), names(&["bar", "baz", "foo"]));
    assert!(canonical_features(&names(&[])).is_empty());
}

#[test]
fn concat_uses_no_separator() {
    let list = names(&["bar", "baz", "foo"]);
    let refs: Vec<&String> = list.iter().collect();
    assert_eq!(concat_features(&refs), "barbazfoo");
    let none: Vec<&String> = Vec::new();
    assert_eq!(concat_features(&none), "");
    let blanks = names(&["", "a", "", "\u{e9}"]);
    let refs: Vec<&String> = blanks.iter().collect();
    assert_eq!(concat_features(&refs), "a\u{e9}");
}

#[test]
fn lower_hex_renders_two_digits_per_byte() {
    assert_eq!(to_lower_hex(&[]), "");
    assert_eq!(to_lower_hex(&[10, 20, 30]), "0a141e");
    assert_eq!(to_lower_hex(&[0x00, 0xff, 0x0f, 0xf0]), "00ff0ff0");
    assert_eq!(
        to_lower_hex(&[0x01, 0x23, 0x45, 0x67, 0x89, 0xab, 0xcd, 0xef]),
        "0123456789abcdef"
    );
}
