use rbxlx_to_rojo::classify::{Representation, ScriptKind};
use rbxlx_to_rojo::instance::{Instance, Property};
use rbxlx_to_rojo::layout::{operations, WriteOp};
use rbxlx_to_rojo::plan::{build_plan, Event, Metadata, PlanNode, Projection, DEFAULT_SUFFIX_LIMIT};
use rbxlx_to_rojo::value::Value;
use rbxlx_to_rojo::writer::{Dropped, Report, Unresolved, Writer};

fn node(id: u128, class: &str, name: &str, properties: Vec<Property>, children: Vec<Instance>) -> Instance {
    Instance { id, class: class.to_string(), name: name.to_string(), properties, children }
}

fn prop(name: &str, value: Value) -> Property {
    Property { name: name.to_string(), value }
}

fn path(parts: &[&str]) -> Vec<String> {
    parts.iter().map(|p| p.to_string()).collect()
}

fn show(ops: &[WriteOp]) -> Vec<(Vec<String>, Option<String>)> {
    ops.iter().map(|op| (op.path.clone(), op.content.clone())).collect()
}

fn run_all(projection: &Projection, fail_at: &[&[&str]]) -> Report {
    let mut writer = Writer::new(projection);
    while let Some(op) = writer.next_op() {
        if fail_at.iter().any(|p| path(p) == op.path) {
            writer.record(Err("permission denied".to_string()));
        } else {
            writer.record(Ok(()));
        }
    }
    writer.finish()
}

fn sample_tree() -> Instance {
    node(
        1,
        "DataModel",
        "Game",
        vec![prop("Archivable", Value::Bool(true))],
        vec![
            node(
                2,
                "Workspace",
                "Workspace",
                vec![prop("Gravity", Value::Float64("196.2".to_string()))],
                vec![
                    node(3, "Part", "Part", vec![prop("CFrame", Value::Unsupported("CFrame".to_string()))], vec![]),
                    node(4, "Part", "Part", vec![prop("Color", Value::Color3("1".to_string(), "0".to_string(), "0.5".to_string()))], vec![]),
                    node(5, "Part", "part", vec![], vec![]),
                ],
            ),
            node(
                6,
                "ServerScriptService",
                "Server/Scripts",
                vec![],
                vec![
                    node(
                        7,
                        "Script",
                        "Main",
                        vec![prop("Source", Value::Text("print('main')".to_string())), prop("Disabled", Value::Bool(true))],
                        vec![node(8, "ModuleScript", "Util", vec![prop("Source", Value::Text("return {}".to_string()))], vec![])],
                    ),
                    node(9, "LocalScript", "CON", vec![], vec![]),
                ],
            ),
        ],
    )
}

fn rebuild(plan: &PlanNode) -> Instance {
    let name = match &plan.metadata {
        Some(Metadata { original_name: Some(name), .. }) => name.clone(),
        _ => plan.component.clone(),
    };
    let mut properties = Vec::new();
    if let Some(text) = &plan.content {
        properties.push(prop("Source", Value::Text(text.clone())));
    }
    if let Some(meta) = &plan.metadata {
        properties.extend(meta.properties.iter().map(|p| p.duplicate()));
    }
    Instance {
        id: plan.origin,
        class: plan.class.clone(),
        name,
        properties,
        children: plan.children.iter().map(rebuild).collect(),
    }
}

#[test]
fn script_leaf_becomes_one_file_without_metadata() {
    let script = node(2, "Script", "Foo", vec![prop("Source", Value::Text("print(1)".to_string()))], vec![]);
    let root = node(1, "DataModel", "Game", vec![], vec![script]);
    let projection = build_plan(&root, DEFAULT_SUFFIX_LIMIT);
    let foo = &projection.plan.children[0];
    assert_eq!(foo.kind, Representation::SourceFile(ScriptKind::Server));
    assert_eq!(foo.component, "Foo");
    assert_eq!(foo.content, Some("print(1)".to_string()));
    assert!(foo.metadata.is_none());
    let ops = operations(&projection.plan);
    assert_eq!(
        show(&ops),
        vec![
            (path(&[]), None),
            (path(&["init.meta.json"]), Some("{\"name\":\"Game\",\"properties\":{}}".to_string())),
            (path(&["Foo.server.lua"]), Some("print(1)".to_string())),
        ]
    );
}

#[test]
fn colliding_children_get_suffixes() {
    let root = node(
        1,
        "Folder",
        "Foo",
        vec![],
        vec![node(2, "Folder", "Bar", vec![], vec![]), node(3, "Folder", "Bar", vec![], vec![])],
    );
    let projection = build_plan(&root, DEFAULT_SUFFIX_LIMIT);
    assert_eq!(projection.plan.children.len(), 2);
    assert_eq!(projection.plan.children[0].component, "Bar");
    assert_eq!(projection.plan.children[0].origin, 2);
    assert_eq!(projection.plan.children[1].component, "Bar_2");
    assert_eq!(projection.plan.children[1].origin, 3);
    assert!(projection.plan.children[0].metadata.is_none());
    let meta = projection.plan.children[1].metadata.as_ref().unwrap();
    assert_eq!(meta.original_name, Some("Bar".to_string()));
    let ops = operations(&projection.plan);
    let dirs: Vec<Vec<String>> = ops.iter().filter(|op| op.content.is_none()).map(|op| op.path.clone()).collect();
    assert_eq!(dirs, vec![path(&[]), path(&["Bar"]), path(&["Bar_2"])]);
    assert_eq!(
        projection.events,
        vec![
            Event::NodeProcessed { id: 1 },
            Event::NodeProcessed { id: 2 },
            Event::NameCollisionResolved { id: 3, name: "Bar_2".to_string() },
            Event::NodeProcessed { id: 3 },
        ]
    );
}

#[test]
fn container_with_children_and_metadata() {
    let container = node(
        2,
        "Folder",
        "Stuff",
        vec![prop("Archivable", Value::Bool(false)), prop("Archivable2", Value::Unsupported("Exotic".to_string()))],
        vec![node(3, "Folder", "A", vec![], vec![]), node(4, "ModuleScript", "B", vec![], vec![])],
    );
    let root = node(1, "DataModel", "Game", vec![], vec![container]);
    let projection = build_plan(&root, DEFAULT_SUFFIX_LIMIT);
    let ops = operations(&projection.plan);
    assert_eq!(
        show(&ops),
        vec![
            (path(&[]), None),
            (path(&["init.meta.json"]), Some("{\"name\":\"Game\",\"properties\":{}}".to_string())),
            (path(&["Stuff"]), None),
            (
                path(&["Stuff", "init.meta.json"]),
                Some("{\"properties\":{\"Archivable\":{\"type\":\"bool\",\"value\":false}}}".to_string())
            ),
            (path(&["Stuff", "A"]), None),
            (path(&["Stuff", "B.lua"]), Some(String::new())),
        ]
    );
    assert_eq!(
        projection.events,
        vec![
            Event::NodeProcessed { id: 1 },
            Event::InvalidPropertyValue { id: 2, property: "Archivable2".to_string() },
            Event::NodeProcessed { id: 2 },
            Event::NodeProcessed { id: 3 },
            Event::NodeProcessed { id: 4 },
        ]
    );
    let report = run_all(&projection, &[]);
    assert_eq!(report.materialized, 4);
    assert_eq!(report.dropped, vec![Dropped { id: 2, property: "Archivable2".to_string() }]);
    assert!(report.is_success());
}

#[test]
fn a_failed_child_is_left_out_of_the_manifest() {
    let root = node(
        1,
        "DataModel",
        "Game",
        vec![],
        vec![
            node(2, "Folder", "A", vec![], vec![node(5, "Folder", "Inner", vec![], vec![])]),
            node(3, "Folder", "B", vec![], vec![]),
            node(4, "Script", "C", vec![], vec![]),
        ],
    );
    let projection = build_plan(&root, DEFAULT_SUFFIX_LIMIT);
    let report = run_all(&projection, &[&["A"]]);
    assert!(report.complete);
    assert!(!report.is_success());
    assert_eq!(report.failures.len(), 1);
    assert_eq!(report.failures[0].path, path(&["A"]));
    assert_eq!(report.failures[0].owner, path(&["A"]));
    assert_eq!(report.failures[0].cause, "permission denied");
    assert_eq!(report.materialized, 3);
    assert_eq!(
        report.manifest,
        Some(
            "{\"className\":\"DataModel\",\"children\":{\"B\":{\"className\":\"Folder\",\"children\":{}},\"C\":{\"className\":\"Script\",\"path\":\"C.server.lua\",\"children\":{}}}}"
                .to_string()
        )
    );
}

#[test]
fn a_run_without_failures_succeeds() {
    let root = node(1, "DataModel", "Game", vec![], vec![node(2, "Folder", "A", vec![], vec![])]);
    let projection = build_plan(&root, DEFAULT_SUFFIX_LIMIT);
    let report = run_all(&projection, &[]);
    assert!(report.is_success());
    assert!(report.failures.is_empty());
    assert_eq!(report.materialized, 2);
    assert_eq!(
        report.manifest,
        Some("{\"className\":\"DataModel\",\"children\":{\"A\":{\"className\":\"Folder\",\"children\":{}}}}".to_string())
    );
}

#[test]
fn two_runs_on_the_same_tree_agree() {
    let first = build_plan(&sample_tree(), DEFAULT_SUFFIX_LIMIT);
    let second = build_plan(&sample_tree(), DEFAULT_SUFFIX_LIMIT);
    assert_eq!(first, second);
    assert_eq!(operations(&first.plan), operations(&second.plan));
    let a = run_all(&first, &[]);
    let b = run_all(&second, &[]);
    assert_eq!(a, b);
    assert!(a.is_success());
    assert_eq!(a.materialized, 9);
}

#[test]
fn the_sample_tree_is_laid_out_as_expected() {
    let projection = build_plan(&sample_tree(), DEFAULT_SUFFIX_LIMIT);
    let ops = operations(&projection.plan);
    let paths: Vec<String> = ops.iter().map(|op| op.path.join("/")).collect();
    assert_eq!(
        paths,
        vec![
            "",
            "init.meta.json",
            "Workspace",
            "Workspace/init.meta.json",
            "Workspace/Part",
            "Workspace/Part_2",
            "Workspace/Part_2/init.meta.json",
            "Workspace/part_3",
            "Workspace/part_3/init.meta.json",
            "Server_Scripts",
            "Server_Scripts/init.meta.json",
            "Server_Scripts/Main",
            "Server_Scripts/Main/init.server.lua",
            "Server_Scripts/Main/init.meta.json",
            "Server_Scripts/Main/Util.lua",
            "Server_Scripts/_.client.lua",
            "Server_Scripts/_.meta.json",
        ]
    );
    assert_eq!(ops[3].content, Some("{\"properties\":{\"Gravity\":{\"type\":\"float64\",\"value\":196.2}}}".to_string()));
    assert_eq!(
        ops[6].content,
        Some("{\"name\":\"Part\",\"properties\":{\"Color\":{\"type\":\"color3\",\"value\":[1,0,0.5]}}}".to_string())
    );
    assert_eq!(ops[8].content, Some("{\"name\":\"part\",\"properties\":{}}".to_string()));
    assert_eq!(ops[10].content, Some("{\"name\":\"Server/Scripts\",\"properties\":{}}".to_string()));
    assert_eq!(ops[12].content, Some("print('main')".to_string()));
    assert_eq!(
        ops[13].content,
        Some("{\"properties\":{\"Disabled\":{\"type\":\"bool\",\"value\":true}}}".to_string())
    );
    assert_eq!(ops[14].content, Some("return {}".to_string()));
    assert_eq!(ops[15].content, Some(String::new()));
    assert_eq!(ops[16].content, Some("{\"name\":\"CON\",\"properties\":{}}".to_string()));
}

#[test]
fn the_events_of_the_sample_tree_come_in_the_order_of_the_walk() {
    let projection = build_plan(&sample_tree(), DEFAULT_SUFFIX_LIMIT);
    assert_eq!(
        projection.events,
        vec![
            Event::NodeProcessed { id: 1 },
            Event::NodeProcessed { id: 2 },
            Event::UnsupportedClassFallback { id: 3, class: "Part".to_string() },
            Event::InvalidPropertyValue { id: 3, property: "CFrame".to_string() },
            Event::NodeProcessed { id: 3 },
            Event::UnsupportedClassFallback { id: 4, class: "Part".to_string() },
            Event::NameCollisionResolved { id: 4, name: "Part_2".to_string() },
            Event::NodeProcessed { id: 4 },
            Event::UnsupportedClassFallback { id: 5, class: "Part".to_string() },
            Event::NameCollisionResolved { id: 5, name: "part_3".to_string() },
            Event::NodeProcessed { id: 5 },
            Event::NodeProcessed { id: 6 },
            Event::NodeProcessed { id: 7 },
            Event::NodeProcessed { id: 8 },
            Event::NodeProcessed { id: 9 },
        ]
    );
}

#[test]
fn the_plan_gives_the_tree_back() {
    let tree = sample_tree();
    let projection = build_plan(&tree, DEFAULT_SUFFIX_LIMIT);
    let back = rebuild(&projection.plan);
    let expected = node(
        1,
        "DataModel",
        "Game",
        vec![],
        vec![
            node(
                2,
                "Workspace",
                "Workspace",
                vec![prop("Gravity", Value::Float64("196.2".to_string()))],
                vec![
                    node(3, "Part", "Part", vec![], vec![]),
                    node(4, "Part", "Part", vec![prop("Color", Value::Color3("1".to_string(), "0".to_string(), "0.5".to_string()))], vec![]),
                    node(5, "Part", "part", vec![], vec![]),
                ],
            ),
            node(
                6,
                "ServerScriptService",
                "Server/Scripts",
                vec![],
                vec![
                    node(
                        7,
                        "Script",
                        "Main",
                        vec![prop("Source", Value::Text("print('main')".to_string())), prop("Disabled", Value::Bool(true))],
                        vec![node(8, "ModuleScript", "Util", vec![prop("Source", Value::Text("return {}".to_string()))], vec![])],
                    ),
                    node(9, "LocalScript", "CON", vec![prop("Source", Value::Text(String::new()))], vec![]),
                ],
            ),
        ],
    );
    assert_eq!(back, expected);
}

#[test]
fn a_root_that_is_a_script_is_a_directory_all_the_same() {
    let root = node(1, "ModuleScript", "Lib", vec![prop("Source", Value::Text("return 1".to_string()))], vec![]);
    let projection = build_plan(&root, DEFAULT_SUFFIX_LIMIT);
    assert_eq!(projection.plan.kind, Representation::DirectoryWithInit(ScriptKind::Module));
    assert_eq!(projection.plan.component, "");
    let ops = operations(&projection.plan);
    assert_eq!(
        show(&ops),
        vec![
            (path(&[]), None),
            (path(&["init.lua"]), Some("return 1".to_string())),
            (path(&["init.meta.json"]), Some("{\"name\":\"Lib\",\"properties\":{}}".to_string())),
        ]
    );
}

#[test]
fn a_child_without_a_free_name_is_left_out_with_what_is_below_it() {
    let root = node(
        1,
        "Folder",
        "Root",
        vec![],
        vec![
            node(2, "Folder", "A", vec![], vec![]),
            node(3, "Folder", "A", vec![], vec![node(4, "Folder", "Deep", vec![], vec![])]),
            node(5, "Folder", "B", vec![], vec![]),
        ],
    );
    let projection = build_plan(&root, 1);
    let names: Vec<&str> = projection.plan.children.iter().map(|c| c.component.as_str()).collect();
    assert_eq!(names, vec!["A", "B"]);
    let report = run_all(&projection, &[]);
    assert!(report.complete);
    assert!(report.failures.is_empty());
    assert_eq!(report.unresolved, vec![Unresolved { id: 3, name: "A".to_string() }]);
    assert!(!report.is_success());
    assert_eq!(report.materialized, 3);
    assert_eq!(
        projection.events,
        vec![
            Event::NodeProcessed { id: 1 },
            Event::NodeProcessed { id: 2 },
            Event::NameCollisionUnresolved { id: 3, name: "A".to_string() },
            Event::NodeProcessed { id: 5 },
        ]
    );
}

#[test]
fn names_are_scoped_to_their_directory() {
    let root = node(
        1,
        "Folder",
        "Root",
        vec![],
        vec![
            node(2, "Folder", "A", vec![], vec![node(3, "Folder", "A", vec![], vec![])]),
            node(4, "Folder", "B", vec![], vec![node(5, "Folder", "A", vec![], vec![])]),
        ],
    );
    let projection = build_plan(&root, DEFAULT_SUFFIX_LIMIT);
    assert_eq!(projection.plan.children[0].children[0].component, "A");
    assert_eq!(projection.plan.children[1].children[0].component, "A");
}

#[test]
fn every_node_of_a_tree_with_small_directories_is_planned_once() {
    fn count_plan(plan: &PlanNode) -> usize {
        1 + plan.children.iter().map(count_plan).sum::<usize>()
    }
    fn count_tree(node: &Instance) -> usize {
        1 + node.children.iter().map(count_tree).sum::<usize>()
    }
    let tree = sample_tree();
    let projection = build_plan(&tree, DEFAULT_SUFFIX_LIMIT);
    assert_eq!(count_plan(&projection.plan), count_tree(&tree));
    assert_eq!(count_tree(&tree), 9);
    assert!(!projection.events.iter().any(|e| matches!(e, Event::NameCollisionUnresolved { .. })));
}
