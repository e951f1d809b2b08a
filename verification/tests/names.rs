use rbxlx_to_rojo::classify::{Representation, ScriptKind};
use rbxlx_to_rojo::names::{
    fold_of, resolve_siblings, sanitize_name, NameCollisionUnresolved, NameTable, MAX_NAME_LEN,
    MAX_SUFFIX_LEN,
};

fn dir(name: &str) -> (String, Representation) {
    (name.to_string(), Representation::PlainDirectory)
}

fn file(name: &str, kind: ScriptKind) -> (String, Representation) {
    (name.to_string(), Representation::SourceFile(kind))
}

fn names_of(siblings: &[(String, Representation)], limit: u32) -> Vec<Result<String, NameCollisionUnresolved>> {
    resolve_siblings(&siblings.to_vec(), limit)
}

fn folded(name: &str) -> String {
    let chars: Vec<char> = name.chars().collect();
    fold_of(&chars).into_iter().collect()
}

#[test]
fn sanitize_keeps_a_plain_name() {
    assert_eq!(sanitize_name("Foo"), "Foo");
    assert_eq!(sanitize_name("Foo Bar.baz"), "Foo Bar.baz");
    assert_eq!(sanitize_name("Pièce détachée"), "Pièce détachée");
}

#[test]
fn sanitize_replaces_illegal_characters() {
    assert_eq!(sanitize_name("a/b\\c:d"), "a_b_c_d");
    assert_eq!(sanitize_name("tab\there"), "tab_here");
    assert_eq!(sanitize_name("a*b?c\"d<e>f|g"), "a_b_c_d_e_f_g");
    assert_eq!(sanitize_name("del\u{7f}"), "del_");
    assert_eq!(sanitize_name("nul\u{0}"), "nul_");
}

#[test]
fn sanitize_replaces_device_names_and_empty_names() {
    assert_eq!(sanitize_name("CON"), "_");
    assert_eq!(sanitize_name("com1.txt"), "_");
    assert_eq!(sanitize_name("Lpt9"), "_");
    assert_eq!(sanitize_name("aux"), "_");
    assert_eq!(sanitize_name("PRN.server"), "_");
    assert_eq!(sanitize_name("nul"), "_");
    assert_eq!(sanitize_name(""), "_");
    assert_eq!(sanitize_name("console"), "console");
    assert_eq!(sanitize_name("com0"), "com0");
    assert_eq!(sanitize_name("com10"), "com10");
}

#[test]
fn sanitize_replaces_a_closing_dot_or_space() {
    assert_eq!(sanitize_name("name."), "name_");
    assert_eq!(sanitize_name("name "), "name_");
    assert_eq!(sanitize_name("."), "_");
    assert_eq!(sanitize_name(".."), "._");
    assert_eq!(sanitize_name(" lead"), " lead");
}

#[test]
fn sanitize_cuts_long_names_to_a_prefix() {
    let long: String = std::iter::repeat('x').take(200).collect();
    let cut = sanitize_name(&long);
    assert_eq!(cut.chars().count(), MAX_NAME_LEN);
    assert_eq!(MAX_NAME_LEN, 48);
    assert!(long.starts_with(&cut));
    let exact: String = std::iter::repeat('y').take(48).collect();
    assert_eq!(sanitize_name(&exact), exact);
    let dotted = format!("{}.tail", std::iter::repeat('z').take(47).collect::<String>());
    assert_eq!(sanitize_name(&dotted), format!("{}_", std::iter::repeat('z').take(47).collect::<String>()));
}

#[test]
fn fold_lowers_the_letters_of_every_script() {
    assert_eq!(folded("AbC_19.Z"), "abc_19.z");
    assert_eq!(folded("É[@`{"), "é[@`{");
    assert_eq!(folded("ΑΒΓ Жж Ǆ"), "αβγ жж ǆ");
    assert_eq!(folded("\u{130}"), "i\u{307}");
    assert_eq!(folded("\u{212a}"), "k");
    assert_eq!(folded("模块"), "模块");
}

#[test]
fn names_that_differ_in_the_case_of_any_letter_collide() {
    let names = names_of(&[dir("\u{c9}"), dir("\u{e9}"), dir("Ж"), dir("ж"), dir("K"), dir("\u{212a}")], 100);
    assert_eq!(
        names,
        vec![
            Ok("\u{c9}".to_string()),
            Ok("\u{e9}_2".to_string()),
            Ok("Ж".to_string()),
            Ok("ж_2".to_string()),
            Ok("K".to_string()),
            Ok("\u{212a}_2".to_string()),
        ]
    );
}

#[test]
fn control_characters_above_ascii_are_replaced() {
    assert_eq!(sanitize_name("a\u{80}b\u{9f}c\u{a0}d"), "a_b_c\u{a0}d");
    assert_eq!(sanitize_name("\u{85}"), "_");
}

#[test]
fn duplicates_get_suffixes_in_order() {
    let names = names_of(&[dir("Bar"), dir("Bar"), dir("bar")], 100);
    assert_eq!(names, vec![Ok("Bar".to_string()), Ok("Bar_2".to_string()), Ok("bar_3".to_string())]);
}

#[test]
fn a_suffixed_name_that_is_taken_is_passed_over() {
    let names = names_of(&[dir("A_2"), dir("A"), dir("A"), dir("A")], 100);
    assert_eq!(
        names,
        vec![Ok("A_2".to_string()), Ok("A".to_string()), Ok("A_3".to_string()), Ok("A_4".to_string())]
    );
}

#[test]
fn names_that_sanitize_to_the_same_collide() {
    let names = names_of(&[dir("a/b"), dir("a\\b"), dir("a_b")], 100);
    assert_eq!(names, vec![Ok("a_b".to_string()), Ok("a_b_2".to_string()), Ok("a_b_3".to_string())]);
}

#[test]
fn resolved_names_are_pairwise_distinct_without_regard_to_case() {
    let displays = ["Foo", "foo", "FOO", "Foo_2", "foo_2", "a/b", "a:b", "", "CON", "_", "x.", "x ", "x_"];
    let siblings: Vec<(String, Representation)> = displays.iter().map(|d| dir(d)).collect();
    let names = names_of(&siblings, 1000);
    let resolved: Vec<String> = names.into_iter().map(|n| folded(&n.unwrap())).collect();
    for i in 0..resolved.len() {
        for j in i + 1..resolved.len() {
            assert_ne!(resolved[i], resolved[j], "{} and {}", i, j);
        }
    }
}

#[test]
fn a_name_that_the_directory_keeps_is_not_given_out() {
    let names = names_of(
        &[dir("init.lua"), dir("Init.Meta.Json"), dir("default.project.json"), file("init", ScriptKind::Module)],
        100,
    );
    assert_eq!(
        names,
        vec![
            Ok("init.lua_2".to_string()),
            Ok("Init.Meta.Json_2".to_string()),
            Ok("default.project.json_2".to_string()),
            Ok("init_2".to_string()),
        ]
    );
}

#[test]
fn a_file_does_not_take_the_name_of_a_directory() {
    let names = names_of(&[dir("Foo.server.lua"), file("Foo", ScriptKind::Server)], 100);
    assert_eq!(names, vec![Ok("Foo.server.lua".to_string()), Ok("Foo_2".to_string())]);
    let names = names_of(&[file("Foo", ScriptKind::Server), dir("Foo.server.lua"), dir("foo.META.json")], 100);
    assert_eq!(
        names,
        vec![Ok("Foo".to_string()), Ok("Foo.server.lua_2".to_string()), Ok("foo.META.json_2".to_string())]
    );
    let names = names_of(&[file("Foo", ScriptKind::Server), file("Foo", ScriptKind::Client)], 100);
    assert_eq!(names, vec![Ok("Foo".to_string()), Ok("Foo_2".to_string())]);
}

#[test]
fn a_low_limit_leaves_names_unresolved() {
    let mut table = NameTable::new(2);
    assert_eq!(table.resolve("x", Representation::PlainDirectory), Ok("x".to_string()));
    assert_eq!(table.resolve("x", Representation::PlainDirectory), Ok("x_2".to_string()));
    assert_eq!(table.resolve("x", Representation::PlainDirectory), Err(NameCollisionUnresolved));
    assert_eq!(table.resolve("X", Representation::PlainDirectory), Err(NameCollisionUnresolved));
    assert_eq!(table.resolve("y", Representation::SourceFile(ScriptKind::Module)), Ok("y".to_string()));
}

#[test]
fn a_limit_of_zero_resolves_nothing() {
    let names = names_of(&[dir("A")], 0);
    assert_eq!(names, vec![Err(NameCollisionUnresolved)]);
}

#[test]
fn an_unresolved_name_claims_nothing() {
    let names = names_of(&[dir("A"), dir("A"), dir("B")], 1);
    assert_eq!(names, vec![Ok("A".to_string()), Err(NameCollisionUnresolved), Ok("B".to_string())]);
}

#[test]
fn the_table_tells_what_is_claimed() {
    let mut table = NameTable::new(10);
    let key: Vec<char> = "foo".chars().collect();
    assert!(!table.is_claimed(&key));
    assert_eq!(table.resolve("Foo", Representation::PlainDirectory), Ok("Foo".to_string()));
    assert!(table.is_claimed(&key));
    let kept: Vec<char> = "init.meta.json".chars().collect();
    assert!(table.is_claimed(&kept));
}

#[test]
fn many_equal_names_are_resolved_in_order() {
    let siblings: Vec<(String, Representation)> = (0..3000).map(|_| dir("Part")).collect();
    let names = resolve_siblings(&siblings, 1_000_000);
    assert_eq!(names.len(), 3000);
    assert_eq!(names[0], Ok("Part".to_string()));
    assert_eq!(names[1], Ok("Part_2".to_string()));
    assert_eq!(names[2999], Ok("Part_3000".to_string()));
}

#[test]
fn a_resolved_name_stays_within_its_length() {
    let long: String = std::iter::repeat('x').take(100).collect();
    let names = names_of(&[dir(&long), dir(&long)], u32::MAX);
    let second = names[1].clone().unwrap();
    assert_eq!(second.chars().count(), 50);
    assert!(second.chars().count() <= MAX_NAME_LEN + MAX_SUFFIX_LEN);
    assert!(second.ends_with("_2"));
}

#[test]
fn names_do_not_run_out_in_a_directory_that_is_small_for_the_limit() {
    let siblings: Vec<(String, Representation)> = (0..20)
        .map(|i| if i % 2 == 0 { file("same", ScriptKind::Server) } else { dir("SAME.server.lua") })
        .collect();
    let limit = 15 + 9 * 19 + 1;
    let names = resolve_siblings(&siblings, limit);
    assert!(names.iter().all(|n| n.is_ok()));
    let mut seen: Vec<String> = names.into_iter().map(|n| folded(&n.unwrap())).collect();
    seen.sort();
    seen.dedup();
    assert_eq!(seen.len(), 20);
}
