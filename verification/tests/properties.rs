use rbxlx_to_rojo::instance::Property;
use rbxlx_to_rojo::properties::{default_of, externalize};
use rbxlx_to_rojo::value::Value;

fn prop(name: &str, value: Value) -> Property {
    Property { name: name.to_string(), value }
}

#[test]
fn the_default_table_holds_what_it_says() {
    assert_eq!(default_of("Folder", "Archivable"), Some(Value::Bool(true)));
    assert_eq!(default_of("NoSuchClass", "Archivable"), Some(Value::Bool(true)));
    assert_eq!(default_of("Script", "Disabled"), Some(Value::Bool(false)));
    assert_eq!(default_of("LocalScript", "Disabled"), Some(Value::Bool(false)));
    assert_eq!(default_of("ModuleScript", "Disabled"), None);
    assert_eq!(default_of("Folder", "Disabled"), None);
    assert_eq!(default_of("ModuleScript", "LinkedSource"), Some(Value::Text(String::new())));
    assert_eq!(default_of("Folder", "LinkedSource"), None);
    assert_eq!(default_of("Script", "Source"), None);
    assert_eq!(default_of("Script", "archivable"), None);
}

#[test]
fn defaults_are_left_out_and_the_rest_is_kept_in_order() {
    let out = externalize(
        "Script",
        &vec![
            prop("Zeta", Value::Int64(1)),
            prop("Archivable", Value::Bool(true)),
            prop("Disabled", Value::Bool(true)),
            prop("LinkedSource", Value::Text(String::new())),
            prop("Alpha", Value::Text("x".to_string())),
        ],
    );
    assert_eq!(
        out.kept,
        vec![prop("Zeta", Value::Int64(1)), prop("Disabled", Value::Bool(true)), prop("Alpha", Value::Text("x".to_string()))]
    );
    assert!(out.omitted.is_empty());
    assert_eq!(out.source, None);
}

#[test]
fn a_default_of_another_type_is_no_default() {
    let out = externalize("Folder", &vec![prop("Archivable", Value::Int64(1)), prop("Archivable", Value::Bool(false))]);
    assert_eq!(out.kept, vec![prop("Archivable", Value::Int64(1)), prop("Archivable", Value::Bool(false))]);
}

#[test]
fn the_source_of_a_script_is_its_content() {
    let out = externalize(
        "ModuleScript",
        &vec![prop("Source", Value::Text("return 1".to_string())), prop("Source", Value::Text("second".to_string()))],
    );
    assert_eq!(out.source, Some("return 1".to_string()));
    assert!(out.kept.is_empty());
    assert!(out.omitted.is_empty());
}

#[test]
fn a_source_that_is_no_text_or_no_script_is_a_property_like_any_other() {
    let out = externalize("Folder", &vec![prop("Source", Value::Text("x".to_string()))]);
    assert_eq!(out.source, None);
    assert_eq!(out.kept, vec![prop("Source", Value::Text("x".to_string()))]);
    let out = externalize("Script", &vec![prop("Source", Value::Int64(3)), prop("source", Value::Text("x".to_string()))]);
    assert_eq!(out.source, None);
    assert_eq!(out.kept, vec![prop("Source", Value::Int64(3)), prop("source", Value::Text("x".to_string()))]);
}

#[test]
fn tags_are_kept_even_where_empty() {
    let out = externalize("Folder", &vec![prop("Tags", Value::Tags(vec![]))]);
    assert_eq!(out.kept, vec![prop("Tags", Value::Tags(vec![]))]);
}

#[test]
fn values_without_an_encoding_are_left_out_by_name() {
    let out = externalize(
        "Part",
        &vec![
            prop("CFrame", Value::Unsupported("CFrame".to_string())),
            prop("Size", Value::Vector3("1".to_string(), "2".to_string(), "3".to_string())),
            prop("Mass", Value::Float64("NaN".to_string())),
        ],
    );
    assert_eq!(out.omitted, vec!["CFrame".to_string(), "Mass".to_string()]);
    assert_eq!(out.kept, vec![prop("Size", Value::Vector3("1".to_string(), "2".to_string(), "3".to_string()))]);
}
