use registry_proxy::codec::{decode, encode};
use registry_proxy::json::Json;

fn read(text: &str) -> Json {
    match decode(text.as_bytes()) {
        Ok(document) => document,
        Err(message) => panic!("{}", message),
    }
}

fn write(document: &Json) -> String {
    String::from_utf8(encode(document)).unwrap()
}

#[test]
fn reads_every_kind_of_document() {
    let document = read("{\"n\":null,\"t\":true,\"u\":7,\"s\":\"x\",\"a\":[1,\"b\"]}");
    assert!(matches!(document.get("n"), Some(Json::Null)));
    assert!(matches!(document.get("t"), Some(Json::Bool(true))));
    assert_eq!(document.get("u").unwrap().as_unsigned(), Some(7));
    assert_eq!(document.get_text("s").unwrap(), "x");
    assert_eq!(
        document.get("a"),
        Some(&Json::Array(vec![Json::unsigned(1), Json::text("b")]))
    );
    assert_eq!(document.get("missing"), None);
}

#[test]
fn keeps_the_message_of_a_reading_error() {
    assert_eq!(
        decode(b"{"),
        Err("EOF while parsing an object at line 1 column 1".to_string())
    );
    assert_eq!(
        decode(b""),
        Err("EOF while parsing a value at line 1 column 0".to_string())
    );
    assert!(decode(b"{} x").is_err());
}

#[test]
fn the_last_field_with_a_key_stays_when_read() {
    let document = read("{\"k\":1,\"k\":2}");
    assert_eq!(document.get("k").unwrap().as_unsigned(), Some(2));
    assert_eq!(write(&document), "{\"k\":2}");
}

#[test]
fn writes_fields_in_ascending_order_of_their_keys() {
    let document = Json::Object(vec![
        ("b".to_string(), Json::Null),
        ("".to_string(), Json::unsigned(0)),
        ("ab".to_string(), Json::Bool(false)),
        ("a".to_string(), Json::text("q\"")),
        ("\u{e9}".to_string(), Json::Array(vec![])),
        ("Z".to_string(), Json::Object(vec![])),
    ]);
    assert_eq!(
        write(&document),
        "{\"\":0,\"Z\":{},\"a\":\"q\\\"\",\"ab\":false,\"b\":null,\"\u{e9}\":[]}"
    );
}

#[test]
fn the_last_field_with_a_key_stays_when_written() {
    let document = Json::Object(vec![
        ("k".to_string(), Json::unsigned(1)),
        ("j".to_string(), Json::unsigned(3)),
        ("k".to_string(), Json::unsigned(2)),
    ]);
    assert_eq!(write(&document), "{\"j\":3,\"k\":2}");
}

#[test]
fn writes_what_it_read() {
    let text = "{\"a\":[{\"b\":1.5,\"c\":-3},18446744073709551615],\"d\":{}}";
    assert_eq!(write(&read(text)), text);
}

#[test]
fn only_integers_from_zero_are_unsigned() {
    assert_eq!(read("18446744073709551615").as_unsigned(), Some(u64::MAX));
    assert_eq!(read("0").as_unsigned(), Some(0));
    assert_eq!(read("-1").as_unsigned(), None);
    assert_eq!(read("1.0").as_unsigned(), None);
    assert_eq!(read("18446744073709551616").as_unsigned(), None);
    assert_eq!(read("\"1\"").as_unsigned(), None);
}

#[test]
fn looks_into_objects_only() {
    assert_eq!(read("[1]").get("0"), None);
    assert_eq!(read("\"text\"").get("text"), None);
    let document = read("{\"o\":{\"x\":1},\"l\":[],\"f\":false,\"t\":true,\"s\":\"v\"}");
    assert_eq!(document.get_object("o").unwrap().len(), 1);
    assert!(document.get_object("l").is_none());
    assert!(!document.get_flag("f"));
    assert!(document.get_flag("t"));
    assert!(!document.get_flag("s"));
    assert_eq!(document.get_text_or("s", "w"), "v");
    assert_eq!(document.get_text_or("t", "w"), "w");
    assert_eq!(document.get_or("none", Json::Null), Json::Null);
    assert_eq!(document.get_or("f", Json::Null), Json::Bool(false));
}

#[test]
fn copies_are_the_same() {
    let document = read("{\"a\":[1,{\"b\":\"c\"},null],\"d\":-2.5}");
    assert_eq!(document.clone(), document);
    assert_eq!(write(&document.clone()), write(&document));
}

#[test]
fn reads_fields_in_ascending_order_of_their_keys() {
    let document = read("{\"b\":{\"z\":1,\"y\":2},\"a\":[{\"d\":0,\"c\":0}]}");
    assert_eq!(
        document,
        Json::Object(vec![
            (
                "a".to_string(),
                Json::Array(vec![Json::Object(vec![
                    ("c".to_string(), Json::unsigned(0)),
                    ("d".to_string(), Json::unsigned(0)),
                ])])
            ),
            (
                "b".to_string(),
                Json::Object(vec![
                    ("y".to_string(), Json::unsigned(2)),
                    ("z".to_string(), Json::unsigned(1)),
                ])
            ),
        ])
    );
}
