use rbxlx_to_rojo::classify::{Representation, ScriptKind};
use rbxlx_to_rojo::instance::Property;
use rbxlx_to_rojo::layout::{metadata_json, operations};
use rbxlx_to_rojo::plan::{Metadata, PlanNode};
use rbxlx_to_rojo::value::Value;

fn prop(name: &str, value: Value) -> Property {
    Property { name: name.to_string(), value }
}

fn leaf(kind: Representation, component: &str, content: Option<&str>, metadata: Option<Metadata>) -> PlanNode {
    PlanNode {
        kind,
        component: component.to_string(),
        class: "X".to_string(),
        content: content.map(|c| c.to_string()),
        metadata,
        children: vec![],
        origin: 0,
    }
}

#[test]
fn metadata_is_written_with_name_and_tagged_properties() {
    let meta = Metadata {
        original_name: Some("a/b".to_string()),
        properties: vec![
            prop("Size", Value::Vector3("1".to_string(), "2".to_string(), "3".to_string())),
            prop("Bad", Value::Unsupported("Exotic".to_string())),
            prop("On", Value::Bool(true)),
        ],
    };
    assert_eq!(
        metadata_json(&meta).to_text(),
        "{\"name\":\"a/b\",\"properties\":{\"Size\":{\"type\":\"vector3\",\"value\":[1,2,3]},\"On\":{\"type\":\"bool\",\"value\":true}}}"
    );
    let bare = Metadata { original_name: None, properties: vec![] };
    assert_eq!(metadata_json(&bare).to_text(), "{\"properties\":{}}");
}

#[test]
fn each_kind_of_node_has_its_own_files() {
    let meta = || Some(Metadata { original_name: None, properties: vec![prop("P", Value::Int64(1))] });
    let text = "{\"properties\":{\"P\":{\"type\":\"int64\",\"value\":1}}}".to_string();
    let mut root = leaf(Representation::PlainDirectory, "", None, None);
    root.children = vec![
        leaf(Representation::SourceFile(ScriptKind::Server), "S", Some("s"), meta()),
        leaf(Representation::SourceFile(ScriptKind::Client), "C", Some("c"), None),
        leaf(Representation::SourceFile(ScriptKind::Module), "M", None, None),
        leaf(Representation::DirectoryWithInit(ScriptKind::Client), "D", Some("d"), meta()),
        leaf(Representation::PlainDirectory, "P", None, meta()),
    ];
    let ops = operations(&root);
    let shown: Vec<(String, String, Option<String>)> =
        ops.iter().map(|op| (op.owner.join("/"), op.path.join("/"), op.content.clone())).collect();
    let row = |owner: &str, path: &str, content: Option<&str>| (owner.to_string(), path.to_string(), content.map(|c| c.to_string()));
    assert_eq!(
        shown,
        vec![
            row("", "", None),
            row("S", "S.server.lua", Some("s")),
            row("S", "S.meta.json", Some(&text)),
            row("C", "C.client.lua", Some("c")),
            row("M", "M.lua", Some("")),
            row("D", "D", None),
            row("D", "D/init.client.lua", Some("d")),
            row("D", "D/init.meta.json", Some(&text)),
            row("P", "P", None),
            row("P", "P/init.meta.json", Some(&text)),
        ]
    );
}

#[test]
fn every_directory_is_created_before_what_goes_into_it() {
    let mut inner = leaf(Representation::PlainDirectory, "In", None, None);
    inner.children = vec![leaf(Representation::SourceFile(ScriptKind::Module), "F", Some("x"), None)];
    let mut mid = leaf(Representation::DirectoryWithInit(ScriptKind::Module), "Mid", Some("m"), None);
    mid.children = vec![inner];
    let mut root = leaf(Representation::PlainDirectory, "", None, None);
    root.children = vec![mid, leaf(Representation::PlainDirectory, "Z", None, None)];
    let ops = operations(&root);
    for (i, op) in ops.iter().enumerate().skip(1) {
        let parent = &op.path[..op.path.len() - 1];
        assert!(
            ops[..i].iter().any(|before| before.content.is_none() && before.path == parent),
            "{:?}",
            op.path
        );
    }
    let mut targets: Vec<String> = ops.iter().map(|op| op.path.join("/").to_lowercase()).collect();
    targets.sort();
    targets.dedup();
    assert_eq!(targets.len(), ops.len());
}
