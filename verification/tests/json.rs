use rbxlx_to_rojo::json::{Json, Member};

fn member(key: &str, value: Json) -> Member {
    Member { key: key.to_string(), value }
}

#[test]
fn scalars_are_written_as_json() {
    assert_eq!(Json::Null.to_text(), "null");
    assert_eq!(Json::Bool(true).to_text(), "true");
    assert_eq!(Json::Bool(false).to_text(), "false");
    assert_eq!(Json::Int(0).to_text(), "0");
    assert_eq!(Json::Int(-12).to_text(), "-12");
    assert_eq!(Json::Int(i64::MIN).to_text(), "-9223372036854775808");
    assert_eq!(Json::Int(i64::MAX).to_text(), "9223372036854775807");
    assert_eq!(Json::Uint(10).to_text(), "10");
    assert_eq!(Json::Uint(u128::MAX).to_text(), "340282366920938463463374607431768211455");
    assert_eq!(Json::Number("1.5".to_string()).to_text(), "1.5");
}

#[test]
fn strings_are_quoted_and_escaped() {
    assert_eq!(Json::Str("abc".to_string()).to_text(), "\"abc\"");
    assert_eq!(Json::Str(String::new()).to_text(), "\"\"");
    assert_eq!(Json::Str("a\"b\\c".to_string()).to_text(), "\"a\\\"b\\\\c\"");
    assert_eq!(Json::Str("l1\nl2\r\tx".to_string()).to_text(), "\"l1\\nl2\\r\\tx\"");
    assert_eq!(Json::Str("\u{0}\u{1f}\u{b}".to_string()).to_text(), "\"\\u0000\\u001f\\u000b\"");
    assert_eq!(Json::Str("é✓/".to_string()).to_text(), "\"é✓/\"");
}

#[test]
fn arrays_and_objects_are_written_in_order() {
    assert_eq!(Json::Array(vec![]).to_text(), "[]");
    assert_eq!(Json::Object(vec![]).to_text(), "{}");
    assert_eq!(Json::Array(vec![Json::Int(1)]).to_text(), "[1]");
    assert_eq!(
        Json::Array(vec![Json::Int(1), Json::Null, Json::Array(vec![Json::Bool(true), Json::Array(vec![])])]).to_text(),
        "[1,null,[true,[]]]"
    );
    assert_eq!(
        Json::Object(vec![
            member("b", Json::Int(2)),
            member("a", Json::Object(vec![member("x\"y", Json::Str("z".to_string()))])),
            member("b", Json::Array(vec![Json::Uint(3), Json::Uint(4)])),
        ])
        .to_text(),
        "{\"b\":2,\"a\":{\"x\\\"y\":\"z\"},\"b\":[3,4]}"
    );
}
