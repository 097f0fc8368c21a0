use indolentjson::node::Node;
use indolentjson::splice::push_all_at;
use indolentjson::value::Value;
use std::str;

const TEST_STRING: &'static [u8] = br#"{
        "ab": 12,
        "cd": 34,
        "ef": 56
    }"#;

#[test]
fn test_first() {
    let mut value = Value::from_slice(TEST_STRING);

    value.remove_key(b"ab");

    assert_eq!(&value.compacted, br#"{"cd":34,"ef":56}"#);
}

#[test]
fn test_middle() {
    let mut value = Value::from_slice(TEST_STRING);

    value.remove_key(b"cd");

    assert_eq!(&value.compacted, br#"{"ab":12,"ef":56}"#);
}

#[test]
fn test_last() {
    let mut value = Value::from_slice(TEST_STRING);

    value.remove_key(b"ef");

    assert_eq!(&value.compacted, br#"{"ab":12,"cd":34}"#);
}

#[test]
fn test_first_and_last() {
    let mut value = Value::from_slice(br#"{"ab":12}"#);

    value.remove_key(b"ab");

    assert_eq!(&value.compacted, br#"{}"#);
}

#[test]
fn test_multiple() {
    let mut value = Value::from_slice(TEST_STRING);

    value.remove_key(b"ab");
    value.remove_key(b"cd");

    assert_eq!(&value.compacted, br#"{"ef":56}"#);
}

#[test]
fn test_all() {
    let mut value = Value::from_slice(TEST_STRING);

    value.remove_key(b"ab");
    value.remove_key(b"cd");
    value.remove_key(b"ef");

    assert_eq!(&value.compacted, br#"{}"#);
}

#[test]
fn removed_value() {
    let mut value = Value::from_slice(TEST_STRING);

    {
        let removed_value = value.remove_key(b"ab").unwrap();
        assert_eq!(&removed_value.compacted, br#"12"#);
        assert_eq!(&value.compacted, br#"{"cd":34,"ef":56}"#);
    }

    {
        let removed_value = value.remove_key(b"ef").unwrap();
        assert_eq!(&removed_value.compacted, br#"56"#);
        assert_eq!(&value.compacted, br#"{"cd":34}"#);
    }
}

#[test]
fn push_all() {
    let mut test_vec = vec![1, 2, 3, 4, 5];
    push_all_at(&mut test_vec, 1, &[7, 8, 9]);

    assert_eq!(&test_vec, &[1, 7, 8, 9, 2, 3, 4, 5]);
}

#[test]
fn prepend_key() {
    let mut value = Value::from_slice(TEST_STRING);
    let sub_value = Value::from_slice(br#"{"test":12345}"#);

    assert_eq!(value.nodes.len(), 7);

    value.prepend_key(b"wibble", &sub_value);

    assert_eq!(
        str::from_utf8(&value.compacted[..]).unwrap(),
        &r#"{"wibble":{"test":12345},"ab":12,"cd":34,"ef":56}"#[..]
    );
    assert_eq!(value.nodes[0].descendant_count, 10);
    assert_eq!(value.nodes[0].byte_length as usize, value.compacted.len());
    assert_eq!(value.nodes[1].descendant_count, 0);
    assert_eq!(value.nodes[1].byte_length as usize, 8);
    assert_eq!(sub_value.nodes.len(), 3);
    assert_eq!(value.nodes.len(), 11);
    assert_eq!(
        value,
        Value::from_slice(&br#"{"wibble":{"test":12345},"ab":12,"cd":34,"ef":56}"#[..])
    );
}

#[test]
fn prepend_key_empty() {
    let mut value = Value::from_slice(br#"{}"#);
    let sub_value = Value::from_slice(br#"{"test":12345}"#);

    value.prepend_key(b"wibble", &sub_value);

    assert_eq!(
        str::from_utf8(&value.compacted[..]).unwrap(),
        &r#"{"wibble":{"test":12345}}"#[..]
    );
    assert_eq!(value, Value::from_slice(&br#"{"wibble":{"test":12345}}"#[..]));
}

#[test]
fn add_key() {
    let mut value = Value::from_slice(TEST_STRING);
    let sub_value = Value::from_slice(br#"{"test":12345}"#);

    assert_eq!(value.nodes.len(), 7);

    value.add_key(b"wibble", &sub_value);

    assert_eq!(
        str::from_utf8(&value.compacted[..]).unwrap(),
        &r#"{"ab":12,"cd":34,"ef":56,"wibble":{"test":12345}}"#[..]
    );
    assert_eq!(value.nodes[0].descendant_count, 10);
    assert_eq!(value.nodes[0].byte_length as usize, value.compacted.len());
    assert_eq!(sub_value.nodes.len(), 3);
    assert_eq!(value.nodes.len(), 11);
    assert_eq!(
        value,
        Value::from_slice(&br#"{"ab":12,"cd":34,"ef":56,"wibble":{"test":12345}}"#[..])
    );
}

#[test]
fn add_key_empty() {
    let mut value = Value::from_slice(br#"{}"#);
    let sub_value = Value::from_slice(br#"{"test":12345}"#);

    value.add_key(b"wibble", &sub_value);

    assert_eq!(
        str::from_utf8(&value.compacted[..]).unwrap(),
        &r#"{"wibble":{"test":12345}}"#[..]
    );
    assert_eq!(value, Value::from_slice(&br#"{"wibble":{"test":12345}}"#[..]));
}

#[test]
fn get_key() {
    let value = Value::from_slice(TEST_STRING);
    let (nodes, bytes) = value.get_key(b"cd").unwrap();
    assert_eq!(bytes, b"34");
    assert_eq!(nodes, &Value::from_slice(b"34").nodes[..]);

    let value = Value::from_slice(br#"{"ab":12,"cd":34,"ef":56,"wibble":{"test":12345}}"#);
    let (nodes, bytes) = value.get_key(b"wibble").unwrap();
    assert_eq!(bytes, br#"{"test":12345}"#);
    assert_eq!(nodes, &Value::from_slice(br#"{"test":12345}"#).nodes[..]);
}

#[test]
fn absent_key_leaves_value_unchanged() {
    let mut value = Value::from_slice(TEST_STRING);
    let before = value.clone();

    assert!(value.get_key(b"zz").is_none());
    assert!(value.remove_key(b"zz").is_none());
    value.discard_key(b"zz");

    assert_eq!(value, before);
}

#[test]
fn mutators_ignore_non_object() {
    let mut value = Value::from_slice(b"[1,2,3]");
    let sub_value = Value::from_slice(b"12");
    let before = value.clone();

    value.add_key(b"k", &sub_value);
    value.prepend_key(b"k", &sub_value);
    assert!(value.remove_key(b"k").is_none());
    value.discard_key(b"k");
    assert!(value.get_key(b"k").is_none());

    assert_eq!(value, before);
}

#[test]
fn root_bookkeeping_after_every_mutator() {
    let mut value = Value::from_slice(TEST_STRING);
    let sub_value = Value::from_slice(br#"{"test":12345}"#);

    value.add_key(b"wibble", &sub_value);
    assert_eq!(value.nodes[0].byte_length as usize, value.compacted.len());
    assert_eq!(value.nodes[0].descendant_count as usize, value.nodes.len() - 1);

    value.prepend_key(b"front", &sub_value);
    assert_eq!(value.nodes[0].byte_length as usize, value.compacted.len());
    assert_eq!(value.nodes[0].descendant_count as usize, value.nodes.len() - 1);

    value.remove_key(b"wibble");
    assert_eq!(value.nodes[0].byte_length as usize, value.compacted.len());
    assert_eq!(value.nodes[0].descendant_count as usize, value.nodes.len() - 1);

    value.discard_key(b"ab");
    assert_eq!(value.nodes[0].byte_length as usize, value.compacted.len());
    assert_eq!(value.nodes[0].descendant_count as usize, value.nodes.len() - 1);
}

#[test]
fn add_then_remove_restores_object() {
    let original = Value::from_slice(TEST_STRING);
    let sub_value = Value::from_slice(br#"{"test":12345}"#);

    let mut value = original.clone();
    value.add_key(b"wibble", &sub_value);
    let removed = value.remove_key(b"wibble").unwrap();

    assert_eq!(value, original);
    assert_eq!(removed, sub_value);

    let empty = Value::from_slice(b"{}");
    let mut value = empty.clone();
    value.add_key(b"wibble", &sub_value);
    let removed = value.remove_key(b"wibble").unwrap();
    assert_eq!(value, empty);
    assert_eq!(removed, sub_value);
}

#[test]
fn as_bytes_is_the_compacted_document() {
    let value = Value::from_slice(TEST_STRING);
    assert_eq!(value.as_bytes(), br#"{"ab":12,"cd":34,"ef":56}"#);
}

#[test]
fn from_parts_reassembles() {
    let value = Value::from_slice(TEST_STRING);
    let reassembled = Value::from_parts(value.nodes.clone(), value.compacted.clone());
    assert_eq!(reassembled, value);
}

#[test]
fn nested_values_scan_is_skipped_not_descended() {
    // a nested object holding the same key must not shadow the top level
    let mut value = Value::from_slice(br#"{"a":{"x":1},"x":2}"#);
    let (_, bytes) = value.get_key(b"x").unwrap();
    assert_eq!(bytes, b"2");
    value.remove_key(b"x");
    assert_eq!(&value.compacted, br#"{"a":{"x":1}}"#);
}

#[test]
fn child_view_walks_immediate_children() {
    let value = Value::from_slice(TEST_STRING);
    // keys and values alternate; offsets point at each child's span
    assert_eq!(
        value.children(),
        vec![(1, 1), (2, 6), (3, 9), (4, 14), (5, 17), (6, 22)]
    );

    let leaf = Value::from_slice(b"12");
    assert_eq!(leaf.children(), vec![]);

    let arr = Value::from_slice(b"[1,[2,3],4]");
    assert_eq!(arr.children(), vec![(1, 1), (2, 3), (5, 9)]);
}

#[test]
fn flatten_invariant_holds_for_every_node() {
    let mut value = Value::from_slice(br#"{"a":{"x":[1,2]},"b":3}"#);
    let sub_value = Value::from_slice(br#"[{"y":true}]"#);
    value.add_key(b"c", &sub_value);
    value.prepend_key(b"d", &sub_value);
    value.remove_key(b"a");

    let n = value.nodes.len();
    assert_eq!(value.nodes[0].descendant_count as usize, n - 1);
    for i in 0..n {
        assert!(i + 1 + value.nodes[i].descendant_count as usize <= n);
    }
}
