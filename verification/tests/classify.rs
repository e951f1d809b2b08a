use rbxlx_to_rojo::classify::{class_has_rule, classify, script_kind_of, Representation, ScriptKind};

#[test]
fn scripts_without_children_are_source_files() {
    assert_eq!(classify("Script", false), Representation::SourceFile(ScriptKind::Server));
    assert_eq!(classify("LocalScript", false), Representation::SourceFile(ScriptKind::Client));
    assert_eq!(classify("ModuleScript", false), Representation::SourceFile(ScriptKind::Module));
}

#[test]
fn scripts_with_children_are_directories_with_an_init_file() {
    assert_eq!(classify("Script", true), Representation::DirectoryWithInit(ScriptKind::Server));
    assert_eq!(classify("LocalScript", true), Representation::DirectoryWithInit(ScriptKind::Client));
    assert_eq!(classify("ModuleScript", true), Representation::DirectoryWithInit(ScriptKind::Module));
}

#[test]
fn every_other_class_is_a_plain_directory() {
    for class in ["Folder", "Model", "Part", "", "script", "SCRIPT", "Script ", "NoSuchClass", "模块"] {
        assert_eq!(classify(class, false), Representation::PlainDirectory, "{}", class);
        assert_eq!(classify(class, true), Representation::PlainDirectory, "{}", class);
    }
}

#[test]
fn extensions_follow_the_script_kind() {
    assert_eq!(ScriptKind::Server.extension(), ".server.lua");
    assert_eq!(ScriptKind::Client.extension(), ".client.lua");
    assert_eq!(ScriptKind::Module.extension(), ".lua");
}

#[test]
fn the_catalog_knows_scripts_and_containers() {
    assert_eq!(script_kind_of("Script"), Some(ScriptKind::Server));
    assert_eq!(script_kind_of("Folder"), None);
    for class in ["Script", "LocalScript", "ModuleScript", "Folder", "Model", "Workspace", "DataModel", "StarterGui"] {
        assert!(class_has_rule(class), "{}", class);
    }
    for class in ["Part", "", "folder", "Decal"] {
        assert!(!class_has_rule(class), "{}", class);
    }
}
