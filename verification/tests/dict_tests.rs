use cascade::Dictionary;
use cascade::DictValue;
use cascade::LoadError;

#[test]
fn test_loading_from_json_str() {
    let d = Dictionary::with_json_str(
        "{\"name\":\"en\", \"map\":{\"a\":\"b\",\"c\":\"d\", \"e\": {\"f\": \"g\", \"h\": \"i\"}}}",
        ".",
    )
    .unwrap();
    assert_eq!(d.name, "en");
    assert_eq!(d.translate("a").unwrap(), "b");
    assert_eq!(d.translate("c").unwrap(), "d");
    assert_eq!(d.translate("e.f").unwrap(), "g");
    assert_eq!(d.translate("e.h").unwrap(), "i");
}

#[test]
fn test_loading_from_toml_str() {
    let d = Dictionary::with_toml_str(
        r#"
            name = "ja"

            [map]
            a = "b"
            c = "d"

            [map.e]
            f = "g"
            h = "i"
        "#,
        ".",
    )
    .unwrap();
    assert_eq!(d.name, "ja");
    assert_eq!(d.translate("a").unwrap(), "b");
    assert_eq!(d.translate("c").unwrap(), "d");
    assert_eq!(d.translate("e.f").unwrap(), "g");
    assert_eq!(d.translate("e.h").unwrap(), "i");
}

#[test]
fn test_dotted_path_lookup() {
    let d = Dictionary::with_json_str(
        "{\"name\":\"en\",\"map\":{\"a\":\"b\",\"c\":\"d\",\"e\":{\"f\":\"g\",\"h\":\"i\"}}}",
        ".",
    )
    .unwrap();
    assert_eq!(d.translate("a").unwrap(), "b");
    assert_eq!(d.translate("c").unwrap(), "d");
    assert_eq!(d.translate("e.f").unwrap(), "g");
    assert_eq!(d.translate("e.h").unwrap(), "i");
    assert_eq!(d.translate("e"), None);
    assert_eq!(d.translate("nonexistent"), None);
}

#[test]
fn test_leaf_before_path_end_misses() {
    let d = Dictionary::with_json_str("{\"name\":\"en\",\"map\":{\"a\":\"b\"}}", ".").unwrap();
    assert_eq!(d.translate("a.b"), None);
}

#[test]
fn test_malformed_leaves_are_dropped() {
    let d = Dictionary::with_json_str(
        "{\"name\":\"en\",\"map\":{\"n\":3,\"b\":true,\"v\":[1,2],\"z\":null,\"s\":\"ok\",\"sub\":{\"m\":7,\"t\":\"deep\"}}}",
        ".",
    )
    .unwrap();
    assert_eq!(d.translate("n"), None);
    assert_eq!(d.translate("b"), None);
    assert_eq!(d.translate("v"), None);
    assert_eq!(d.translate("z"), None);
    assert_eq!(d.translate("s").unwrap(), "ok");
    assert_eq!(d.translate("sub.m"), None);
    assert_eq!(d.translate("sub.t").unwrap(), "deep");
}

#[test]
fn test_malformed_leaves_in_toml() {
    let d = Dictionary::with_toml_str(
        r#"
            name = "t"

            [map]
            n = 3
            f = 1.5
            b = true
            v = [1, 2]
            s = "ok"
        "#,
        ".",
    )
    .unwrap();
    assert_eq!(d.translate("n"), None);
    assert_eq!(d.translate("f"), None);
    assert_eq!(d.translate("b"), None);
    assert_eq!(d.translate("v"), None);
    assert_eq!(d.translate("s").unwrap(), "ok");
}

#[test]
fn test_parse_failure_is_a_parse_error() {
    let r = Dictionary::with_json_str("this is not json", ".");
    assert_eq!(r.err().unwrap(), LoadError::Parse);
    let r = Dictionary::with_toml_str("= not toml =", ".");
    assert_eq!(r.err().unwrap(), LoadError::Parse);
}

#[test]
fn test_wrong_shape_is_a_parse_error() {
    // root is not an object
    assert_eq!(
        Dictionary::with_json_str("[1,2,3]", ".").err().unwrap(),
        LoadError::Parse
    );
    // name field missing
    assert_eq!(
        Dictionary::with_json_str("{\"map\":{\"a\":\"b\"}}", ".").err().unwrap(),
        LoadError::Parse
    );
    // name field not a string
    assert_eq!(
        Dictionary::with_json_str("{\"name\":3,\"map\":{\"a\":\"b\"}}", ".").err().unwrap(),
        LoadError::Parse
    );
    // map field missing
    assert_eq!(
        Dictionary::with_json_str("{\"name\":\"en\"}", ".").err().unwrap(),
        LoadError::Parse
    );
    // map field not a table
    assert_eq!(
        Dictionary::with_json_str("{\"name\":\"en\",\"map\":\"x\"}", ".").err().unwrap(),
        LoadError::Parse
    );
}

#[test]
fn test_error_kinds_are_distinct() {
    assert_ne!(LoadError::Io, LoadError::Parse);
    assert!(LoadError::Parse.is_parse());
    assert!(!LoadError::Io.is_parse());
}

#[test]
fn test_delimiter_edge_cases() {
    // empty delimiter: the whole key is one segment
    let d = Dictionary::with_json_str("{\"name\":\"x\",\"map\":{\"a.b\":\"c\"}}", "").unwrap();
    assert_eq!(d.translate("a.b").unwrap(), "c");
    // with a dot delimiter the same key is a path and misses
    let d2 = Dictionary::with_json_str("{\"name\":\"x\",\"map\":{\"a.b\":\"c\"}}", ".").unwrap();
    assert_eq!(d2.translate("a.b"), None);
    // empty key: one empty segment
    let d3 = Dictionary::with_json_str("{\"name\":\"x\",\"map\":{\"\":\"v\"}}", ".").unwrap();
    assert_eq!(d3.translate("").unwrap(), "v");
    // double delimiter: an empty middle segment
    let d4 = Dictionary::with_json_str(
        "{\"name\":\"x\",\"map\":{\"a\":{\"\":{\"b\":\"w\"}}}}",
        ".",
    )
    .unwrap();
    assert_eq!(d4.translate("a..b").unwrap(), "w");
    // a delimiter of more than one character
    let d5 = Dictionary::with_json_str(
        "{\"name\":\"x\",\"map\":{\"a\":{\"b\":\"deep\"}}}",
        "::",
    )
    .unwrap();
    assert_eq!(d5.translate("a::b").unwrap(), "deep");
    assert_eq!(d5.translate("a.b"), None);
}

#[test]
fn test_build_from_nodes() {
    let doc = doc_node(
        "en",
        vec![
            ("a".to_string(), cascade::raw::RawNode::Str("b".to_string())),
            (
                "e".to_string(),
                cascade::raw::RawNode::Table(vec![(
                    "f".to_string(),
                    cascade::raw::RawNode::Str("g".to_string()),
                )]),
            ),
            ("junk".to_string(), cascade::raw::RawNode::Other),
        ],
    );
    let d = Dictionary::build(&doc, ".").unwrap();
    assert_eq!(d.name, "en");
    assert_eq!(d.translate("a").unwrap(), "b");
    assert_eq!(d.translate("e.f").unwrap(), "g");
    assert_eq!(d.translate("junk"), None);
}

#[test]
fn test_build_rejects_wrong_shape_nodes() {
    // a bare string document
    let doc = cascade::raw::RawNode::Str("x".to_string());
    assert_eq!(Dictionary::build(&doc, ".").err().unwrap(), LoadError::Parse);
    // a table without the two fields
    let doc = cascade::raw::RawNode::Table(vec![]);
    assert_eq!(Dictionary::build(&doc, ".").err().unwrap(), LoadError::Parse);
}

#[test]
fn test_hand_built_dictionary() {
    let d = Dictionary {
        name: "hand".to_string(),
        delimiter: "/".to_string(),
        map: vec![
            ("k".to_string(), DictValue::Leaf("v".to_string())),
            (
                "sub".to_string(),
                DictValue::SubTable(vec![("in".to_string(), DictValue::Leaf("deep".to_string()))]),
            ),
        ],
    };
    assert_eq!(d.translate("k").unwrap(), "v");
    assert_eq!(d.translate("sub/in").unwrap(), "deep");
    assert_eq!(d.translate("sub"), None);
    assert_eq!(d.translate("k/v"), None);
}

fn doc_node(name: &str, entries: Vec<(String, cascade::raw::RawNode)>) -> cascade::raw::RawNode {
    cascade::raw::RawNode::Table(vec![
        ("name".to_string(), cascade::raw::RawNode::Str(name.to_string())),
        ("map".to_string(), cascade::raw::RawNode::Table(entries)),
    ])
}
