use indolentjson::lex::compact;
use indolentjson::node::Node;
use indolentjson::parse::parse;
use indolentjson::value::Value;

#[test]
fn compact_strips_whitespace_outside_strings() {
    let out = compact(b"{ \"a b\" : [ 1 , true ] }\n").unwrap();
    assert_eq!(&out, br#"{"a b":[1,true]}"#);
}

#[test]
fn compact_keeps_escapes_verbatim() {
    let out = compact(br#"{ "a\"b" : "y \n" }"#).unwrap();
    assert_eq!(&out, br#"{"a\"b":"y \n"}"#);
}

#[test]
fn compact_rejects_unterminated_string() {
    assert!(compact(br#"{"ab: 12}"#).is_err());
}

#[test]
fn compact_rejects_invalid_escape() {
    assert!(compact(br#""a\q""#).is_err());
    assert!(compact(br#""a\u12""#).is_err());
}

#[test]
fn parse_builds_preorder_descendant_counts() {
    let nodes = parse(br#"{"a":[1,2],"b":{"c":null}}"#).unwrap();
    assert_eq!(
        nodes,
        vec![
            Node { descendant_count: 8, byte_length: 26 },
            Node { descendant_count: 0, byte_length: 3 },
            Node { descendant_count: 2, byte_length: 5 },
            Node { descendant_count: 0, byte_length: 1 },
            Node { descendant_count: 0, byte_length: 1 },
            Node { descendant_count: 0, byte_length: 3 },
            Node { descendant_count: 2, byte_length: 10 },
            Node { descendant_count: 0, byte_length: 3 },
            Node { descendant_count: 0, byte_length: 4 },
        ]
    );
}

#[test]
fn parse_rejects_malformed_structure() {
    assert!(parse(b"").is_err());
    assert!(parse(b"{").is_err());
    assert!(parse(br#"{"a"}"#).is_err());
    assert!(parse(br#"{"a":1,}"#).is_err());
    assert!(parse(b"[1,2").is_err());
    assert!(parse(b"[1 2]").is_err());
    assert!(parse(b"tru").is_err());
    assert!(parse(b"wibble").is_err());
}

#[test]
fn parse_rejects_leftover_whitespace() {
    // parse consumes already-minified bytes only
    assert!(parse(b"{ }").is_err());
    assert!(parse(b"12 ").is_err());
}

#[test]
fn parse_accepts_each_leaf_kind() {
    assert_eq!(parse(b"true").unwrap().len(), 1);
    assert_eq!(parse(b"false").unwrap().len(), 1);
    assert_eq!(parse(b"null").unwrap().len(), 1);
    assert_eq!(parse(b"-12.5e3").unwrap().len(), 1);
    assert_eq!(parse(br#""str""#).unwrap().len(), 1);
}

#[test]
fn from_slice_composes_compact_and_parse() {
    let value = Value::from_slice(b" [ 1 , [ 2 ] , \"x\" ] ");
    assert_eq!(&value.compacted, br#"[1,[2],"x"]"#);
    assert_eq!(value.nodes[0].descendant_count, 4);
    assert_eq!(value.nodes[0].byte_length as usize, value.compacted.len());
}

#[test]
fn compact_is_idempotent_on_minified_text() {
    let once = compact(br#"{ "a" : [ 1 , "b c" ] }"#).unwrap();
    let twice = compact(&once).unwrap();
    assert_eq!(twice, once);
}
