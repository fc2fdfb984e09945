use mcpd::json::{Json, JsonField};
use mcpd::codec::{encode_json, decode_json};

fn rt(j: Json) {
    let line = encode_json(&j);
    let back = decode_json(&line).unwrap();
    assert_eq!(back, j);
}

fn field(key: &str, value: Json) -> JsonField {
    JsonField { key: key.to_string(), value }
}

#[test]
fn scalars_round_trip() {
    rt(Json::Null);
    rt(Json::Bool(true));
    rt(Json::Bool(false));
    rt(Json::Int(0));
    rt(Json::Int(42));
    rt(Json::Int(-7));
    rt(Json::Int(i64::MAX));
    rt(Json::Int(i64::MIN));
}

#[test]
fn strings_round_trip() {
    rt(Json::Str("".to_string()));
    rt(Json::Str("hello world".to_string()));
    rt(Json::Str("with \"quotes\" and \\ backslash".to_string()));
    rt(Json::Str("line\nbreak\ttab\rreturn".to_string()));
    rt(Json::Str("unicode: é, 日本語, ☃".to_string()));
}

#[test]
fn containers_round_trip() {
    rt(Json::Arr(vec![]));
    rt(Json::Arr(vec![Json::Int(1), Json::Int(2), Json::Int(3)]));
    rt(Json::Obj(vec![]));
    rt(Json::Obj(vec![
        field("a", Json::Int(1)),
        field("b", Json::Arr(vec![Json::Null, Json::Bool(true)])),
        field("c", Json::Obj(vec![field("nested", Json::Str("deep".to_string()))])),
    ]));
}

#[test]
fn exact_rendering() {
    let j = Json::Obj(vec![
        field("jsonrpc", Json::Str("2.0".to_string())),
        field("id", Json::Int(1)),
        field("items", Json::Arr(vec![Json::Int(-3), Json::Str("x".to_string())])),
    ]);
    assert_eq!(encode_json(&j), r#"{"jsonrpc":"2.0","id":1,"items":[-3,"x"]}"#);
}

#[test]
fn whitespace_is_tolerated() {
    let j = decode_json(" { \"a\" : [ 1 , 2 ] , \"b\" : null } ").unwrap();
    assert_eq!(
        j,
        Json::Obj(vec![
            field("a", Json::Arr(vec![Json::Int(1), Json::Int(2)])),
            field("b", Json::Null),
        ])
    );
}

#[test]
fn escapes_are_decoded() {
    let j = decode_json(r#""a\"b\\c\/d\n\t\r\b\f""#).unwrap();
    assert_eq!(j, Json::Str("a\"b\\c/d\n\t\r\u{8}\u{c}".to_string()));
}

#[test]
fn malformed_frames_are_refused() {
    assert!(decode_json("").is_err());
    assert!(decode_json("nul").is_err());
    assert!(decode_json("{").is_err());
    assert!(decode_json("[1,]").is_err());
    assert!(decode_json("{\"a\":}").is_err());
    assert!(decode_json("\"unterminated").is_err());
    assert!(decode_json("1 2").is_err());
    assert!(decode_json("01").is_err());
    assert!(decode_json("- 1").is_err());
    assert!(decode_json("+1").is_err());
    assert!(decode_json("1.").is_err());
    assert!(decode_json("1e").is_err());
    assert!(decode_json("1e+").is_err());
    // a lone surrogate escape denotes no character
    assert!(decode_json("\"\\ud800\"").is_err());
    assert!(decode_json("\"\\uzzzz\"").is_err());
}

#[test]
fn unicode_escapes_are_decoded() {
    assert_eq!(decode_json(r#""\u0041""#).unwrap(), Json::Str("A".to_string()));
    assert_eq!(decode_json(r#""\u00e9""#).unwrap(), Json::Str("\u{e9}".to_string()));
    assert_eq!(decode_json(r#""\u001b""#).unwrap(), Json::Str("\u{1b}".to_string()));
    // a surrogate pair combines into one character
    assert_eq!(
        decode_json(r#""\ud83d\ude00""#).unwrap(),
        Json::Str("\u{1f600}".to_string())
    );
}

#[test]
fn control_characters_round_trip() {
    let j = Json::Str("escape: \u{1b}, null-ish: \u{1}".to_string());
    let line = encode_json(&j);
    assert_eq!(line, r#""escape: \u001b, null-ish: \u0001""#);
    assert_eq!(decode_json(&line).unwrap(), j);
}

#[test]
fn other_numbers_pass_through_as_text() {
    // fractions, exponents and out-of-range integers are carried as
    // their literal text and re-emitted exactly as read
    for text in [
        "1.5",
        "-0.25",
        "1e3",
        "6.02e23",
        "1E-9",
        "-0",
        "0e0",
        "9223372036854775808",
        "-9223372036854775809",
        "184467440737095516150",
    ] {
        let j = decode_json(text).unwrap();
        assert_eq!(j, Json::Num(text.to_string()));
        assert_eq!(encode_json(&j), text);
    }
    let arr = decode_json(r#"[1.0,2,"x"]"#).unwrap();
    assert_eq!(
        arr,
        Json::Arr(vec![
            Json::Num("1.0".to_string()),
            Json::Int(2),
            Json::Str("x".to_string()),
        ])
    );
    assert_eq!(encode_json(&arr), r#"[1.0,2,"x"]"#);
}

#[test]
fn integer_bounds_pick_the_representation() {
    assert_eq!(decode_json("9223372036854775807").unwrap(), Json::Int(i64::MAX));
    assert_eq!(decode_json("-9223372036854775808").unwrap(), Json::Int(i64::MIN));
    assert_eq!(
        decode_json("9223372036854775808").unwrap(),
        Json::Num("9223372036854775808".to_string())
    );
    assert_eq!(
        decode_json("-9223372036854775809").unwrap(),
        Json::Num("-9223372036854775809".to_string())
    );
}
