use editorconfig_core::string_map::StringMap;
use editorconfig_core::text::{final_component, is_number_str, same_text, to_chars};

#[test]
fn a_new_map_holds_nothing() {
    let map: StringMap<String> = StringMap::new();
    assert_eq!(map.len(), 0);
    assert_eq!(map.get("a"), None);
    assert!(!map.contains_key("a"));
}

#[test]
fn insert_stores_and_replaces() {
    let mut map: StringMap<String> = StringMap::new();
    map.insert("b".to_string(), "1".to_string());
    map.insert("a".to_string(), "2".to_string());
    assert_eq!(map.len(), 2);
    assert_eq!(map.get("a"), Some(&"2".to_string()));
    assert_eq!(map.get("b"), Some(&"1".to_string()));
    map.insert("b".to_string(), "3".to_string());
    assert_eq!(map.len(), 2);
    assert_eq!(map.get("b"), Some(&"3".to_string()));
    assert_eq!(map.get("c"), None);
    assert_eq!(map.get("B"), None);
}

#[test]
fn keys_keep_the_place_of_their_first_arrival() {
    let mut map: StringMap<String> = StringMap::new();
    map.insert("b".to_string(), "1".to_string());
    map.insert("a".to_string(), "2".to_string());
    map.insert("b".to_string(), "3".to_string());
    map.insert("c".to_string(), "4".to_string());
    assert_eq!(map.key_at(0), "b");
    assert_eq!(map.value_at(0), "3");
    assert_eq!(map.key_at(1), "a");
    assert_eq!(map.value_at(1), "2");
    assert_eq!(map.key_at(2), "c");
    assert_eq!(map.value_at(2), "4");
}

#[test]
fn to_chars_takes_a_text_apart() {
    assert_eq!(to_chars("a/b"), vec!['a', '/', 'b']);
    assert_eq!(to_chars(""), Vec::<char>::new());
    assert_eq!(to_chars("\u{e9}\u{4e2d}"), vec!['\u{e9}', '\u{4e2d}']);
}

#[test]
fn final_component_follows_the_last_separator() {
    assert_eq!(final_component(&to_chars("a/b/c.txt")), to_chars("c.txt"));
    assert_eq!(final_component(&to_chars("c.txt")), to_chars("c.txt"));
    assert_eq!(final_component(&to_chars("a/b/")), Vec::<char>::new());
    assert_eq!(final_component(&to_chars("")), Vec::<char>::new());
    assert_eq!(final_component(&to_chars("/x")), vec!['x']);
}

#[test]
fn a_number_is_one_or_more_digits() {
    assert!(is_number_str("0"));
    assert!(is_number_str("42"));
    assert!(is_number_str("007"));
    assert!(!is_number_str(""));
    assert!(!is_number_str("4a"));
    assert!(!is_number_str("-4"));
    assert!(!is_number_str("4.0"));
    assert!(!is_number_str(" 4"));
    assert!(!is_number_str("\u{663}"));
}

#[test]
fn same_text_compares_character_by_character() {
    assert!(same_text("abc", "abc"));
    assert!(same_text("", ""));
    assert!(!same_text("abc", "abd"));
    assert!(!same_text("abc", "ab"));
    assert!(!same_text("abc", "ABC"));
}
