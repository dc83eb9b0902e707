//! The code-point order on names and the map that is kept in it.
use field_columns::name_map::NameMap;
use field_columns::name_order::{compare_names, NameOrder};

#[test]
fn test_compare_names_orders_by_first_difference() {
    assert_eq!(compare_names("moisture", "other_temp"), NameOrder::Before);
    assert_eq!(compare_names("temp", "other_temp"), NameOrder::After);
    assert_eq!(compare_names("field1", "field2"), NameOrder::Before);
}

#[test]
fn test_compare_names_same_name() {
    assert_eq!(compare_names("temp", "temp"), NameOrder::Same);
    assert_eq!(compare_names("", ""), NameOrder::Same);
}

#[test]
fn test_compare_names_prefix_sorts_first() {
    assert_eq!(compare_names("temp", "temperature"), NameOrder::Before);
    assert_eq!(compare_names("temperature", "temp"), NameOrder::After);
    assert_eq!(compare_names("", "a"), NameOrder::Before);
}

#[test]
fn test_compare_names_is_by_code_point_not_by_case_or_length() {
    // 'Z' is U+005A, 'a' is U+0061
    assert_eq!(compare_names("Zebra", "apple"), NameOrder::Before);
    // 'é' is U+00E9, 'z' is U+007A
    assert_eq!(compare_names("z", "é"), NameOrder::Before);
    // U+FF5E sorts before U+1F600 by code point
    assert_eq!(compare_names("\u{ff5e}", "\u{1f600}"), NameOrder::Before);
    assert_eq!(compare_names("b", "aaaa"), NameOrder::After);
}

#[test]
fn test_compare_names_agrees_with_the_order_of_str() {
    let names = ["", "a", "ab", "b", "B", "temp", "tempé", "état", "\u{10348}", "\u{ffff}"];
    for a in names {
        for b in names {
            let expected = match a.cmp(b) {
                std::cmp::Ordering::Less => NameOrder::Before,
                std::cmp::Ordering::Equal => NameOrder::Same,
                std::cmp::Ordering::Greater => NameOrder::After,
            };
            assert_eq!(compare_names(a, b), expected, "{:?} against {:?}", a, b);
        }
    }
}

#[test]
fn test_name_map_starts_empty() {
    let map: NameMap<i64> = NameMap::new();
    assert_eq!(map.get("temp"), None);
    assert!(map.into_entries().is_empty());
}

#[test]
fn test_name_map_insert_then_get() {
    let mut map: NameMap<i64> = NameMap::new();
    map.insert("temp".to_string(), 50);
    map.insert("moisture".to_string(), 7);
    assert_eq!(map.get("temp"), Some(&50));
    assert_eq!(map.get("moisture"), Some(&7));
    assert_eq!(map.get("other_temp"), None);
}

#[test]
fn test_name_map_insert_replaces() {
    let mut map: NameMap<i64> = NameMap::new();
    map.insert("temp".to_string(), 50);
    map.insert("temp".to_string(), 100000);
    assert_eq!(map.get("temp"), Some(&100000));
    assert_eq!(map.into_entries().len(), 1);
}

#[test]
fn test_name_map_entries_come_out_ascending() {
    let mut map: NameMap<u8> = NameMap::new();
    for (i, name) in ["temp", "moisture", "other_temp", "a", "zz", "b"].iter().enumerate() {
        map.insert(name.to_string(), i as u8);
    }
    let entries: Vec<(String, u8)> =
        map.into_entries().into_iter().map(|e| (e.name, e.value)).collect();
    assert_eq!(
        entries,
        vec![
            ("a".to_string(), 3),
            ("b".to_string(), 5),
            ("moisture".to_string(), 1),
            ("other_temp".to_string(), 2),
            ("temp".to_string(), 0),
            ("zz".to_string(), 4),
        ]
    );
}
