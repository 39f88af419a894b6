use cascade::Cascade;
use cascade::Dictionary;
use cascade::LoadError;

#[test]
fn test_cascade() {
    let d1 = Dictionary::with_json_str("{\"name\":\"ja\", \"map\":{\"a\":\"b\"}}", ".").unwrap();
    let d2 = Dictionary::with_json_str("{\"name\":\"en\", \"map\":{\"a\":\"c\", \"x\":\"y\"}}", ".")
        .unwrap();
    let ds = vec![d1, d2];
    let c = Cascade { dicts: ds };
    let t = |key| c.translate(key).unwrap();
    assert_eq!(c.translate("a").unwrap(), "b");
    assert_eq!(c.translate("x").unwrap(), "y");
    assert_eq!(t("a"), "b");
    assert_eq!(t("x"), "y");
}

#[test]
fn test_cascade_totality() {
    let empty = Cascade { dicts: vec![] };
    assert_eq!(empty.translate("a"), None);

    let d1 = Dictionary::with_json_str("{\"name\":\"a\",\"map\":{\"p\":\"1\"}}", ".").unwrap();
    let d2 = Dictionary::with_json_str("{\"name\":\"b\",\"map\":{\"q\":\"2\"}}", ".").unwrap();
    let c = Cascade { dicts: vec![d1, d2] };
    // a key no dictionary holds
    assert_eq!(c.translate("r"), None);
    // keys that exactly one dictionary holds
    assert_eq!(c.translate("p").unwrap(), "1");
    assert_eq!(c.translate("q").unwrap(), "2");
}

#[test]
fn test_with_filepath_strs() {
    let s1 = "{\"name\":\"ja\", \"map\":{\"a\":\"b\"}}";
    let s2 = "{\"name\":\"en\", \"map\":{\"a\":\"c\", \"x\":\"y\"}}";
    let s3 = r#"
        name = "t"

        [map]
        a = "d"
        z = "Z"
    "#;
    let sources = vec![
        ("1.json".to_string(), s1.to_string()),
        ("2.json".to_string(), s2.to_string()),
        ("3.toml".to_string(), s3.to_string()),
    ];
    let c = Cascade::with_filepath_strs(&sources, ".").unwrap();
    assert_eq!(c.dicts.len(), 3);
    assert_eq!(c.translate("a").unwrap(), "b");
    assert_eq!(c.translate("x").unwrap(), "y");
    assert_eq!(c.translate("z").unwrap(), "Z");

    // the same sources loaded by hand give the same answers
    let hand = Cascade {
        dicts: vec![
            Dictionary::with_json_str(s1, ".").unwrap(),
            Dictionary::with_json_str(s2, ".").unwrap(),
            Dictionary::with_toml_str(s3, ".").unwrap(),
        ],
    };
    for key in ["a", "x", "z", "missing", "", "a.b"] {
        assert_eq!(c.translate(key), hand.translate(key));
    }
}

#[test]
fn test_with_filepath_strs_sniffs_extension() {
    // a toml document under a json extension fails to parse as json
    let toml_text = "name = \"t\"\n\n[map]\na = \"b\"\n";
    let sources = vec![("dict.json".to_string(), toml_text.to_string())];
    assert_eq!(
        Cascade::with_filepath_strs(&sources, ".").err().unwrap(),
        LoadError::Parse
    );
    // the same text under a toml extension loads
    let sources = vec![("dict.toml".to_string(), toml_text.to_string())];
    let c = Cascade::with_filepath_strs(&sources, ".").unwrap();
    assert_eq!(c.translate("a").unwrap(), "b");
    // an unrecognized extension falls back to json
    let json_text = "{\"name\":\"j\",\"map\":{\"a\":\"c\"}}";
    let sources = vec![("dict.txt".to_string(), json_text.to_string())];
    let c = Cascade::with_filepath_strs(&sources, ".").unwrap();
    assert_eq!(c.translate("a").unwrap(), "c");
    // a directory named like toml does not decide the format
    let sources = vec![("a.toml/dict".to_string(), json_text.to_string())];
    let c = Cascade::with_filepath_strs(&sources, ".").unwrap();
    assert_eq!(c.translate("a").unwrap(), "c");
}

#[test]
fn test_with_filepath_strs_aborts_on_first_failure() {
    let good = "{\"name\":\"g\",\"map\":{\"a\":\"b\"}}";
    let bad = "not a document";
    let sources = vec![
        ("1.json".to_string(), good.to_string()),
        ("2.json".to_string(), bad.to_string()),
    ];
    assert_eq!(
        Cascade::with_filepath_strs(&sources, ".").err().unwrap(),
        LoadError::Parse
    );
}
