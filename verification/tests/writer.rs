use rbxlx_to_rojo::classify::{Representation, ScriptKind};
use rbxlx_to_rojo::layout::operations;
use rbxlx_to_rojo::manifest::{blocks, build_manifest, count_entries, manifest_json, ManifestNode};
use rbxlx_to_rojo::plan::{Event, PlanNode, Projection};
use rbxlx_to_rojo::writer::{Dropped, Failure, Unresolved, Writer};

fn plan(kind: Representation, component: &str, class: &str, children: Vec<PlanNode>) -> PlanNode {
    PlanNode {
        kind,
        component: component.to_string(),
        class: class.to_string(),
        content: match kind {
            Representation::PlainDirectory => None,
            _ => Some(format!("-- {}", component)),
        },
        metadata: None,
        children,
        origin: 0,
    }
}

fn dir(component: &str, children: Vec<PlanNode>) -> PlanNode {
    plan(Representation::PlainDirectory, component, "Folder", children)
}

fn path(parts: &[&str]) -> Vec<String> {
    parts.iter().map(|p| p.to_string()).collect()
}

fn failure(owner: &[&str]) -> Failure {
    Failure { owner: path(owner), path: path(owner), cause: "no".to_string() }
}

fn tree() -> PlanNode {
    dir(
        "",
        vec![
            dir("A", vec![dir("A1", vec![dir("Deep", vec![])]), plan(Representation::SourceFile(ScriptKind::Module), "A2", "ModuleScript", vec![])]),
            plan(
                Representation::DirectoryWithInit(ScriptKind::Server),
                "B",
                "Script",
                vec![plan(Representation::SourceFile(ScriptKind::Client), "B1", "LocalScript", vec![])],
            ),
            dir("C", vec![]),
        ],
    )
}

fn projected(plan: PlanNode) -> Projection {
    Projection { plan, events: vec![] }
}

fn attempted(plan: &Projection, fails: &[&str]) -> (Vec<String>, rbxlx_to_rojo::writer::Report) {
    let mut writer = Writer::new(plan);
    let mut seen = Vec::new();
    while let Some(op) = writer.next_op() {
        let joined = op.path.join("/");
        let outcome = if fails.contains(&joined.as_str()) { Err(format!("cannot make {}", joined)) } else { Ok(()) };
        seen.push(joined);
        writer.record(outcome);
    }
    assert!(writer.is_finished());
    (seen, writer.finish())
}

#[test]
fn every_operation_is_attempted_in_order_where_nothing_fails() {
    let plan = projected(tree());
    let (seen, report) = attempted(&plan, &[]);
    assert_eq!(
        seen,
        vec!["", "A", "A/A1", "A/A1/Deep", "A/A2.lua", "B", "B/init.server.lua", "B/B1.client.lua", "C"]
    );
    assert!(report.is_success());
    assert_eq!(report.materialized, 8);
}

#[test]
fn nothing_is_attempted_below_a_directory_that_failed() {
    let plan = projected(tree());
    let (seen, report) = attempted(&plan, &["A"]);
    assert_eq!(seen, vec!["", "A", "B", "B/init.server.lua", "B/B1.client.lua", "C"]);
    assert_eq!(report.failures.len(), 1);
    assert_eq!(report.failures[0].cause, "cannot make A");
    assert_eq!(report.materialized, 4);
    assert!(report.complete);
    assert!(!report.is_success());
}

#[test]
fn a_failed_init_file_fails_its_node_and_spares_the_siblings() {
    let plan = projected(tree());
    let (seen, report) = attempted(&plan, &["B/init.server.lua", "A/A1/Deep"]);
    assert_eq!(seen, vec!["", "A", "A/A1", "A/A1/Deep", "A/A2.lua", "B", "B/init.server.lua", "C"]);
    let causes: Vec<(String, String)> = report.failures.iter().map(|f| (f.path.join("/"), f.cause.clone())).collect();
    assert_eq!(
        causes,
        vec![
            ("A/A1/Deep".to_string(), "cannot make A/A1/Deep".to_string()),
            ("B/init.server.lua".to_string(), "cannot make B/init.server.lua".to_string()),
        ]
    );
    assert_eq!(report.failures[1].owner, path(&["B"]));
    assert_eq!(
        report.manifest,
        Some(
            "{\"className\":\"Folder\",\"children\":{\"A\":{\"className\":\"Folder\",\"children\":{\"A1\":{\"className\":\"Folder\",\"children\":{}},\"A2\":{\"className\":\"ModuleScript\",\"path\":\"A2.lua\",\"children\":{}}}},\"C\":{\"className\":\"Folder\",\"children\":{}}}}"
                .to_string()
        )
    );
    assert_eq!(report.materialized, 5);
}

#[test]
fn a_root_that_cannot_be_made_leaves_nothing_and_no_manifest() {
    let plan = projected(tree());
    let (seen, report) = attempted(&plan, &[""]);
    assert_eq!(seen, vec![""]);
    assert!(report.complete);
    assert_eq!(report.manifest, None);
    assert_eq!(report.materialized, 0);
    assert_eq!(report.failures.len(), 1);
}

#[test]
fn a_run_that_is_given_up_has_no_manifest() {
    let plan = projected(tree());
    let mut writer = Writer::new(&plan);
    assert!(!writer.is_finished());
    let first = writer.next_op().unwrap();
    assert_eq!(first.path, path(&[]));
    writer.record(Ok(()));
    let second = writer.next_op().unwrap();
    assert_eq!(second.path, path(&["A"]));
    assert!(writer.failures().is_empty());
    let report = writer.finish();
    assert!(!report.complete);
    assert!(!report.is_success());
    assert_eq!(report.manifest, None);
    assert_eq!(report.materialized, 0);
}

#[test]
fn asking_twice_gives_the_same_operation() {
    let plan = projected(tree());
    let mut writer = Writer::new(&plan);
    let a = writer.next_op();
    let b = writer.next_op();
    assert_eq!(a, b);
    writer.record(Ok(()));
    writer.record(Ok(()));
    assert_eq!(writer.next_op().unwrap().path, path(&["A", "A1"]));
}

#[test]
fn reports_after_the_end_change_nothing() {
    let plan = projected(dir("", vec![]));
    let mut writer = Writer::new(&plan);
    writer.record(Ok(()));
    assert!(writer.is_finished());
    writer.record(Err("late".to_string()));
    assert_eq!(writer.next_op(), None);
    let report = writer.finish();
    assert!(report.is_success());
    assert_eq!(report.materialized, 1);
}

#[test]
fn a_failure_blocks_its_node_and_what_is_below_it_only() {
    let failures = vec![failure(&["A", "B"])];
    assert!(blocks(&failures, &path(&["A", "B"])));
    assert!(blocks(&failures, &path(&["A", "B", "C"])));
    assert!(!blocks(&failures, &path(&["A"])));
    assert!(!blocks(&failures, &path(&["A", "Bx"])));
    assert!(!blocks(&failures, &path(&["A", "C", "B"])));
    assert!(!blocks(&failures, &path(&[])));
    assert!(blocks(&vec![failure(&[])], &path(&["anything"])));
    assert!(!blocks(&vec![], &path(&[])));
}

#[test]
fn the_manifest_mirrors_the_plan() {
    let plan = tree();
    let manifest = build_manifest(&plan, &vec![]).unwrap();
    assert_eq!(count_entries(&manifest), 8);
    assert_eq!(manifest.children.len(), 3);
    assert_eq!(manifest.children[1].key, "B");
    assert_eq!(manifest.children[1].class, "Script");
    assert_eq!(manifest.children[1].path, None);
    assert_eq!(manifest.children[1].children[0].path, Some("B1.client.lua".to_string()));
    let without = build_manifest(&plan, &vec![failure(&["A", "A1"]), failure(&["C"])]).unwrap();
    assert_eq!(count_entries(&without), 5);
    assert_eq!(build_manifest(&plan, &vec![failure(&[])]), None);
    assert_eq!(operations(&plan).len(), 9);
}

#[test]
fn a_manifest_entry_is_written_with_its_class_path_and_children() {
    let entry = ManifestNode {
        key: "ignored at the top".to_string(),
        class: "Folder".to_string(),
        path: None,
        children: vec![ManifestNode {
            key: "a \"b\"".to_string(),
            class: "ModuleScript".to_string(),
            path: Some("a \"b\".lua".to_string()),
            children: vec![],
        }],
    };
    assert_eq!(
        manifest_json(&entry).to_text(),
        "{\"className\":\"Folder\",\"children\":{\"a \\\"b\\\"\":{\"className\":\"ModuleScript\",\"path\":\"a \\\"b\\\".lua\",\"children\":{}}}}"
    );
}

#[test]
fn an_unresolved_name_makes_the_run_a_failure() {
    let projection = Projection {
        plan: dir("", vec![dir("A", vec![])]),
        events: vec![
            Event::NodeProcessed { id: 1 },
            Event::InvalidPropertyValue { id: 1, property: "CFrame".to_string() },
            Event::NodeProcessed { id: 2 },
            Event::NameCollisionUnresolved { id: 3, name: "A".to_string() },
            Event::InvalidPropertyValue { id: 2, property: "Mass".to_string() },
            Event::NameCollisionUnresolved { id: 4, name: "a".to_string() },
        ],
    };
    let (seen, report) = attempted(&projection, &[]);
    assert_eq!(seen, vec!["", "A"]);
    assert!(report.complete);
    assert!(report.failures.is_empty());
    assert_eq!(
        report.unresolved,
        vec![Unresolved { id: 3, name: "A".to_string() }, Unresolved { id: 4, name: "a".to_string() }]
    );
    assert_eq!(
        report.dropped,
        vec![
            Dropped { id: 1, property: "CFrame".to_string() },
            Dropped { id: 2, property: "Mass".to_string() },
        ]
    );
    assert!(!report.is_success());
    assert_eq!(report.materialized, 2);
}

#[test]
fn dropped_properties_alone_do_not_fail_the_run() {
    let projection = Projection {
        plan: dir("", vec![]),
        events: vec![Event::InvalidPropertyValue { id: 1, property: "CFrame".to_string() }],
    };
    let (_, report) = attempted(&projection, &[]);
    assert_eq!(report.dropped.len(), 1);
    assert!(report.unresolved.is_empty());
    assert!(report.is_success());
}
