use indolentjson::tree::{from_input, JsonNode};

const TEST_STRING: &'static [u8] = br#"{
        "ab": 12,
        "cd": 34,
        "ef": 56
    }"#;

#[test]
fn round_trip_unmutated_tree_yields_minified_input() {
    let tree = from_input(TEST_STRING).unwrap();
    assert_eq!(&tree.to_text(), br#"{"ab":12,"cd":34,"ef":56}"#);

    let minified: &[u8] = br#"[1,[2,{"k":"v"}],true,false,null,-1.5e3]"#;
    let tree = from_input(minified).unwrap();
    assert_eq!(tree.to_text(), minified);
}

#[test]
fn materialize_dispatches_on_first_byte() {
    match from_input(b"true").unwrap() {
        JsonNode::Bool(b) => assert!(b),
        _ => panic!("expected a boolean"),
    }
    match from_input(b"null").unwrap() {
        JsonNode::Null => {}
        _ => panic!("expected a null"),
    }
    match from_input(br#""abc""#).unwrap() {
        JsonNode::Str(s) => assert_eq!(&s, br#""abc""#),
        _ => panic!("expected a string"),
    }
    match from_input(b"-12e9").unwrap() {
        JsonNode::Num(s) => assert_eq!(&s, b"-12e9"),
        _ => panic!("expected a number"),
    }
    match from_input(br#"{"a":[1]}"#).unwrap() {
        JsonNode::Object(ms, cache) => {
            assert_eq!(ms.len(), 1);
            assert_eq!(&ms[0].0, br#""a""#);
            assert_eq!(cache.as_deref(), Some(&br#"{"a":[1]}"#[..]));
            match &ms[0].1 {
                JsonNode::Array(vs, _) => assert_eq!(vs.len(), 1),
                _ => panic!("expected an array value"),
            }
        }
        _ => panic!("expected an object"),
    }
}

#[test]
fn to_text_reconstructs_without_a_cache() {
    let tree = JsonNode::Object(
        vec![
            (br#""a""#.to_vec(), JsonNode::Num(b"1".to_vec())),
            (
                br#""b""#.to_vec(),
                JsonNode::Array(vec![JsonNode::Bool(false), JsonNode::Null], None),
            ),
        ],
        None,
    );
    assert_eq!(&tree.to_text(), br#"{"a":1,"b":[false,null]}"#);

    let empty = JsonNode::Object(Vec::new(), None);
    assert_eq!(&empty.to_text(), b"{}");
    let empty = JsonNode::Array(Vec::new(), None);
    assert_eq!(&empty.to_text(), b"[]");
}

#[test]
fn from_input_reports_the_failing_level() {
    assert!(matches!(from_input(br#"{"a: 1}"#), Err(indolentjson::tree::JsonError::Lex(_))));
    assert!(matches!(from_input(br#"{"a":}"#), Err(indolentjson::tree::JsonError::Parse(_))));
}
