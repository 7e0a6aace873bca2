use json_core::Dict;
use std::collections::BTreeMap;

#[test]
fn btree_map_to_dict() {
    let mut b = BTreeMap::<String, i64>::new();
    b.insert("1".to_string(), 1);
    let d1 = Dict::<String, i64>::from_btree_map(b);
    let mut d2 = Dict::<String, i64>::new();
    d2.insert("1".to_string(), 1);
    assert_eq!(d1, d2)
}

#[test]
fn dict_from_btree_map_keeps_key_order() {
    let mut b = BTreeMap::<String, i64>::new();
    b.insert("b".to_string(), 2);
    b.insert("a".to_string(), 1);
    b.insert("ab".to_string(), 3);
    let d = Dict::<String, i64>::from_btree_map(b);
    assert_eq!(d.len(), 3);
    assert_eq!(d.key_at(0), "a");
    assert_eq!(d.key_at(1), "ab");
    assert_eq!(d.key_at(2), "b");
    assert_eq!(*d.value_at(0), 1);
    assert_eq!(*d.value_at(1), 3);
    assert_eq!(*d.value_at(2), 2);
}

#[test]
fn dict_insert_sorts_and_overwrites() {
    let mut d = Dict::<String, i64>::new();
    assert!(d.is_empty());
    assert_eq!(d.insert("m".to_string(), 1), None);
    assert_eq!(d.insert("z".to_string(), 2), None);
    assert_eq!(d.insert("a".to_string(), 3), None);
    assert_eq!(d.insert("m".to_string(), 4), Some(1));
    assert_eq!(d.len(), 3);
    assert_eq!(d.key_at(0), "a");
    assert_eq!(d.key_at(1), "m");
    assert_eq!(d.key_at(2), "z");
    assert_eq!(d.get("m"), Some(&4));
    assert_eq!(d.get("a"), Some(&3));
    assert_eq!(d.get("q"), None);
    assert!(d.contains_key("z"));
    assert!(!d.contains_key(""));
}

#[test]
fn dict_orders_keys_by_bytes() {
    let mut d = Dict::<String, i64>::new();
    d.insert("é".to_string(), 1);
    d.insert("z".to_string(), 2);
    d.insert("".to_string(), 3);
    d.insert("Z".to_string(), 4);
    assert_eq!(d.key_at(0), "");
    assert_eq!(d.key_at(1), "Z");
    assert_eq!(d.key_at(2), "z");
    assert_eq!(d.key_at(3), "é");
}

#[test]
fn bytes_order_and_equality() {
    assert!(json_core::dict::bytes_less(b"a", b"b"));
    assert!(json_core::dict::bytes_less(b"a", b"ab"));
    assert!(json_core::dict::bytes_less(b"", b"a"));
    assert!(!json_core::dict::bytes_less(b"a", b"a"));
    assert!(!json_core::dict::bytes_less(b"b", b"a"));
    assert!(!json_core::dict::bytes_less(b"", b""));
    assert!(json_core::dict::bytes_equal(b"ab", b"ab"));
    assert!(!json_core::dict::bytes_equal(b"ab", b"a"));
    assert!(!json_core::dict::bytes_equal(b"ab", b"ac"));
}

#[test]
fn dicts_with_different_keys_are_unequal() {
    let mut a = Dict::<String, i64>::new();
    a.insert("a".to_string(), 1);
    let mut b = Dict::<String, i64>::new();
    b.insert("b".to_string(), 1);
    assert!(a != b);
    let mut c = Dict::<String, i64>::new();
    c.insert("a".to_string(), 2);
    assert!(a != c);
    let mut d = Dict::<String, i64>::new();
    d.insert("a".to_string(), 1);
    assert!(a == d);
    d.insert("b".to_string(), 1);
    assert!(a != d);
    assert!(Dict::<String, i64>::new() == Dict::<String, i64>::new());
}
