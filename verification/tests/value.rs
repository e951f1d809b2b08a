use rbxlx_to_rojo::json::is_number_text;
use rbxlx_to_rojo::value::Value;

fn text_of(value: &Value) -> Option<String> {
    value.encode().map(|j| j.to_text())
}

#[test]
fn decimal_numerals_are_told_from_other_texts() {
    for good in ["0", "-0", "1", "10", "-12", "1.5", "-0.25", "100000000000000000000", "0.0", "3.14159"] {
        assert!(is_number_text(good), "{}", good);
    }
    for bad in [
        "", "-", ".", "1.", ".5", "-.5", "01", "-01", "00", "1e5", "NaN", "inf", "-inf", "+1", "1.2.3", "1,5", " 1", "1 ",
        "0x10", "--1", "1-", "١",
    ] {
        assert!(!is_number_text(bad), "{}", bad);
    }
}

#[test]
fn every_type_has_its_own_tag() {
    assert_eq!(text_of(&Value::Bool(true)), Some("{\"type\":\"bool\",\"value\":true}".to_string()));
    assert_eq!(text_of(&Value::Int64(-3)), Some("{\"type\":\"int64\",\"value\":-3}".to_string()));
    assert_eq!(text_of(&Value::Float64("1.5".to_string())), Some("{\"type\":\"float64\",\"value\":1.5}".to_string()));
    assert_eq!(text_of(&Value::Int32(-3)), Some("{\"type\":\"int32\",\"value\":-3}".to_string()));
    assert_eq!(text_of(&Value::Int32(i32::MIN)), Some("{\"type\":\"int32\",\"value\":-2147483648}".to_string()));
    assert_eq!(text_of(&Value::Enum(7)), Some("{\"type\":\"enum\",\"value\":7}".to_string()));
    assert_eq!(text_of(&Value::Enum(u32::MAX)), Some("{\"type\":\"enum\",\"value\":4294967295}".to_string()));
    assert_eq!(text_of(&Value::Float32("1.5".to_string())), Some("{\"type\":\"float32\",\"value\":1.5}".to_string()));
    assert_eq!(
        text_of(&Value::ContentId("rbxassetid://1".to_string())),
        Some("{\"type\":\"content\",\"value\":\"rbxassetid://1\"}".to_string())
    );
    assert_eq!(
        text_of(&Value::SharedString(vec![1, 2])),
        Some("{\"type\":\"sharedstring\",\"value\":[1,2]}".to_string())
    );
    assert_eq!(text_of(&Value::Text("a\"b".to_string())), Some("{\"type\":\"string\",\"value\":\"a\\\"b\"}".to_string()));
    assert_eq!(text_of(&Value::Binary(vec![0, 10, 255])), Some("{\"type\":\"binary\",\"value\":[0,10,255]}".to_string()));
    assert_eq!(text_of(&Value::Binary(vec![])), Some("{\"type\":\"binary\",\"value\":[]}".to_string()));
    assert_eq!(
        text_of(&Value::Vector2("1".to_string(), "-2.5".to_string())),
        Some("{\"type\":\"vector2\",\"value\":[1,-2.5]}".to_string())
    );
    assert_eq!(
        text_of(&Value::Vector3("1".to_string(), "2".to_string(), "3".to_string())),
        Some("{\"type\":\"vector3\",\"value\":[1,2,3]}".to_string())
    );
    assert_eq!(
        text_of(&Value::Color3("1".to_string(), "2".to_string(), "3".to_string())),
        Some("{\"type\":\"color3\",\"value\":[1,2,3]}".to_string())
    );
    assert_eq!(text_of(&Value::Ref(None)), Some("{\"type\":\"ref\",\"value\":null}".to_string()));
    assert_eq!(text_of(&Value::Ref(Some(77))), Some("{\"type\":\"ref\",\"value\":77}".to_string()));
    assert_eq!(
        text_of(&Value::Tags(vec!["a".to_string(), "b c".to_string()])),
        Some("{\"type\":\"tags\",\"value\":[\"a\",\"b c\"]}".to_string())
    );
}

#[test]
fn a_vector_and_a_color_of_the_same_numbers_are_written_differently() {
    let vector = Value::Vector3("1".to_string(), "2".to_string(), "3".to_string());
    let color = Value::Color3("1".to_string(), "2".to_string(), "3".to_string());
    assert_ne!(text_of(&vector), text_of(&color));
    assert!(!vector.same_as(&color));
}

#[test]
fn values_without_an_encoding_are_refused() {
    assert_eq!(text_of(&Value::Unsupported("CFrame".to_string())), None);
    assert_eq!(text_of(&Value::Float64("NaN".to_string())), None);
    assert_eq!(text_of(&Value::Float64("inf".to_string())), None);
    assert_eq!(text_of(&Value::Float32("NaN".to_string())), None);
    assert_eq!(text_of(&Value::Vector2("1".to_string(), "x".to_string())), None);
    assert_eq!(text_of(&Value::Vector3("1".to_string(), "2".to_string(), "".to_string())), None);
    assert_eq!(text_of(&Value::Color3("NaN".to_string(), "2".to_string(), "3".to_string())), None);
    assert!(!Value::Unsupported("CFrame".to_string()).is_encodable());
    assert!(Value::Text("NaN".to_string()).is_encodable());
}

#[test]
fn copies_are_equal_and_different_values_are_not() {
    let values = vec![
        Value::Bool(true),
        Value::Bool(false),
        Value::Int32(1),
        Value::Int64(1),
        Value::Int64(2),
        Value::Enum(1),
        Value::Float32("1".to_string()),
        Value::Float64("1".to_string()),
        Value::Text("1".to_string()),
        Value::ContentId("1".to_string()),
        Value::SharedString(vec![1]),
        Value::Text("".to_string()),
        Value::Binary(vec![1]),
        Value::Binary(vec![1, 2]),
        Value::Binary(vec![]),
        Value::Vector2("1".to_string(), "2".to_string()),
        Value::Vector2("2".to_string(), "1".to_string()),
        Value::Vector3("1".to_string(), "2".to_string(), "3".to_string()),
        Value::Color3("1".to_string(), "2".to_string(), "3".to_string()),
        Value::Ref(None),
        Value::Ref(Some(1)),
        Value::Ref(Some(2)),
        Value::Tags(vec![]),
        Value::Tags(vec!["a".to_string()]),
        Value::Tags(vec!["a".to_string(), "b".to_string()]),
        Value::Unsupported("1".to_string()),
    ];
    for (i, a) in values.iter().enumerate() {
        assert!(a.same_as(&a.duplicate()));
        assert_eq!(&a.duplicate(), a);
        for (j, b) in values.iter().enumerate() {
            assert_eq!(a.same_as(b), i == j, "{} {}", i, j);
        }
    }
}
