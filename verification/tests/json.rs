use zeroclaw::json::{parse_json, JsonDocument, JsonField, JsonMember, JsonObject};

#[test]
fn members_are_read_by_name() {
    let doc = parse_json(br#"{"s":"text","n":3,"neg":-1,"big":18446744073709551616,"f":1.5,"b":true,"z":null,"a":[1],"o":{"s":"inner"}}"#).unwrap();
    assert_eq!(doc.text("s").map(String::as_str), Some("text"));
    assert_eq!(doc.number("n"), Some(3));
    assert_eq!(doc.number("neg"), None);
    assert_eq!(doc.number("big"), None);
    assert_eq!(doc.number("f"), None);
    assert_eq!(doc.number("s"), None);
    assert_eq!(doc.text("n"), None);
    assert!(matches!(doc.get("b"), Some(JsonField::Bool(true))));
    assert!(matches!(doc.get("z"), Some(JsonField::Null)));
    assert!(matches!(doc.get("a"), Some(JsonField::Array)));
    assert!(matches!(doc.get("o"), Some(JsonField::Object)));
    assert!(doc.get("missing").is_none());
}

#[test]
fn the_last_of_two_members_counts() {
    let doc = parse_json(br#"{"s":"one","s":"two"}"#).unwrap();
    assert_eq!(doc.text("s").map(String::as_str), Some("two"));
}

#[test]
fn what_is_no_object_has_no_members() {
    assert!(parse_json(b"{broken").is_none());
    assert!(parse_json(b"").is_none());
    assert!(parse_json(&[0xff, 0xfe]).is_none());
    for raw in [&b"[1]"[..], b"\"s\"", b"3", b"null"] {
        assert!(parse_json(raw).unwrap().members.is_empty());
    }
    assert!(JsonDocument::Other.into_object().members.is_empty());
    let doc = JsonDocument::Object(JsonObject {
        members: vec![JsonMember {
            name: "s".to_string(),
            value: JsonField::Null,
        }],
    });
    assert_eq!(doc.into_object().members.len(), 1);
}
