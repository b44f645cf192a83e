use data_dealer::rows::derive_rows;
use data_dealer::rows::image_reference;
use data_dealer::rows::get_row_variant_key;
use data_dealer::rows::str_contains;
use data_dealer::rows::trim_str;
use data_dealer::rows::RowVariant;
use data_dealer::state::Entry;

fn entry(key: &str, value: &str) -> Entry {
    Entry { key: String::from(key), value: String::from(value) }
}

fn data(key: &str, value: &str) -> RowVariant {
    RowVariant::Data(String::from(key), String::from(value))
}

#[test]
fn rows_for_empty_query() {
    let entries = vec![entry("apple", "red"), entry("banana", "yellow")];
    let rows = derive_rows(&entries, "");
    assert_eq!(
        rows,
        vec![
            RowVariant::Heading('A'),
            data("apple", "red"),
            RowVariant::Heading('B'),
            data("banana", "yellow"),
        ]
    );
}

#[test]
fn rows_for_substring_query() {
    let entries = vec![entry("apple", "red"), entry("banana", "yellow")];
    let rows = derive_rows(&entries, "an");
    assert_eq!(rows, vec![RowVariant::Heading('B'), data("banana", "yellow")]);
}

#[test]
fn rows_query_is_trimmed() {
    let entries = vec![entry("apple", "red"), entry("banana", "yellow")];
    assert_eq!(derive_rows(&entries, "  an\t"), derive_rows(&entries, "an"));
}

#[test]
fn rows_filter_is_case_sensitive() {
    let entries = vec![entry("Apple", "x")];
    assert_eq!(derive_rows(&entries, "a"), vec![]);
    assert_eq!(
        derive_rows(&entries, "A"),
        vec![RowVariant::Heading('A'), data("Apple", "x")]
    );
}

#[test]
fn rows_order_ignores_case() {
    let entries = vec![entry("Banana", "1"), entry("apple", "2")];
    let rows = derive_rows(&entries, "");
    assert_eq!(
        rows,
        vec![
            RowVariant::Heading('A'),
            data("apple", "2"),
            RowVariant::Heading('B'),
            data("Banana", "1"),
        ]
    );
}

#[test]
fn one_heading_per_distinct_first_letter() {
    let entries = vec![entry("apple", "1"), entry("avocado", "2"), entry("banana", "3")];
    let rows = derive_rows(&entries, "");
    assert_eq!(
        rows,
        vec![
            RowVariant::Heading('A'),
            data("apple", "1"),
            data("avocado", "2"),
            RowVariant::Heading('B'),
            data("banana", "3"),
        ]
    );
}

#[test]
fn derivation_is_deterministic_across_calls() {
    let entries = vec![entry("pear", "1"), entry("Peach", "2"), entry("plum", "3")];
    let first = derive_rows(&entries, "p");
    let second = derive_rows(&entries, "p");
    assert_eq!(first, second);
}

#[test]
fn client_filter_matches_direct_derivation() {
    let entries = vec![entry("apple", "1"), entry("banana", "2"), entry("cherry", "3")];
    let from_empty: Vec<RowVariant> = derive_rows(&entries, "")
        .into_iter()
        .filter(|r| match r {
            RowVariant::Data(k, _) => k.contains("an"),
            RowVariant::Heading(_) => false,
        })
        .collect();
    let direct: Vec<RowVariant> = derive_rows(&entries, "an")
        .into_iter()
        .filter(|r| matches!(r, RowVariant::Data(_, _)))
        .collect();
    assert_eq!(from_empty, direct);
}

#[test]
fn rows_are_ordered_by_comparison_key() {
    let entries = vec![
        entry("zebra", "1"),
        entry("Ant", "2"),
        entry("mango", "3"),
        entry("Melon", "4"),
    ];
    let rows = derive_rows(&entries, "");
    let keys: Vec<String> = rows.iter().map(get_row_variant_key).collect();
    for pair in keys.windows(2) {
        assert!(pair[0] <= pair[1]);
    }
}

#[test]
fn get_row_variant_key_lowercases() {
    assert_eq!(get_row_variant_key(&RowVariant::Heading('Q')), "q");
    assert_eq!(get_row_variant_key(&data("MiXeD", "v")), "mixed");
}

#[test]
fn str_contains_cases() {
    assert!(str_contains("banana", "an"));
    assert!(str_contains("banana", ""));
    assert!(str_contains("", ""));
    assert!(!str_contains("apple", "an"));
    assert!(!str_contains("ab", "abc"));
    assert!(str_contains("abc", "abc"));
}

#[test]
fn trim_str_strips_surrounding_whitespace() {
    assert_eq!(trim_str("  x\t\n"), "x");
    assert_eq!(trim_str(""), "");
    assert_eq!(trim_str(" \t\r\n"), "");
    assert_eq!(trim_str("a b"), "a b");
}

#[test]
fn image_reference_recognizes_the_marker() {
    assert_eq!(image_reference("file::/tmp/shot.png"), Some("tmp/shot.png"));
    assert_eq!(image_reference("file::/"), Some(""));
    assert_eq!(image_reference("plain text"), None);
    assert_eq!(image_reference("file:/x"), None);
    assert_eq!(image_reference(""), None);
}
