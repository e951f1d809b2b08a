//! The sync rule classifier: which kind of filesystem entity stands for a
//! node, decided from its class and from whether it has children.

use vstd::prelude::*;
use crate::text::same_text;

verus! {

/// Where a script-like class runs.
#[derive(Clone, Copy, Debug, PartialEq, Eq, Structural)]
pub enum ScriptKind {
    /// Runs on the server.
    Server,
    /// Runs on the client.
    Client,
    /// Runs wherever it is required from.
    Module,
}

/// The filesystem entity that stands for one node.
#[derive(Clone, Copy, Debug, PartialEq, Eq, Structural)]
pub enum Representation {
    /// A single source file.
    SourceFile(ScriptKind),
    /// A directory that holds an `init` source file and one entry per child.
    DirectoryWithInit(ScriptKind),
    /// A directory without a source file of its own.
    PlainDirectory,
}

/// The script kind of a class, if the class is script-like.
pub open spec fn script_kind(class: Seq<char>) -> Option<ScriptKind> {
    if class == "Script"@ {
        Some(ScriptKind::Server)
    } else if class == "LocalScript"@ {
        Some(ScriptKind::Client)
    } else if class == "ModuleScript"@ {
        Some(ScriptKind::Module)
    } else {
        None
    }
}

/// Whether a class is a container by its own meaning, so that a plain
/// directory is its specific rule and not a fallback.
pub open spec fn is_container_class(class: Seq<char>) -> bool {
    ||| class == "Folder"@
    ||| class == "Model"@
    ||| class == "Configuration"@
    ||| class == "DataModel"@
    ||| class == "Workspace"@
    ||| class == "Lighting"@
    ||| class == "ReplicatedFirst"@
    ||| class == "ReplicatedStorage"@
    ||| class == "ServerScriptService"@
    ||| class == "ServerStorage"@
    ||| class == "StarterGui"@
    ||| class == "StarterPack"@
    ||| class == "StarterPlayer"@
    ||| class == "StarterPlayerScripts"@
    ||| class == "StarterCharacterScripts"@
}

/// Whether the catalog has a rule of its own for the class. A class without
/// one is still representable: it falls back to a plain directory.
pub open spec fn has_specific_rule(class: Seq<char>) -> bool {
    script_kind(class) is Some || is_container_class(class)
}

/// The representation of a node of the given class. It depends on nothing but
/// the class and on whether the node has children, and it is defined for every
/// class: a script-like class without children is a source file, one with
/// children is a directory with an init file, and every other class, known or
/// not, is a plain directory.
pub open spec fn representation(class: Seq<char>, has_children: bool) -> Representation {
    match script_kind(class) {
        Some(kind) => if has_children {
            Representation::DirectoryWithInit(kind)
        } else {
            Representation::SourceFile(kind)
        },
        None => Representation::PlainDirectory,
    }
}

/// The file extension, dot included, of the source file of a script.
pub open spec fn extension(kind: ScriptKind) -> Seq<char> {
    match kind {
        ScriptKind::Server => ".server.lua"@,
        ScriptKind::Client => ".client.lua"@,
        ScriptKind::Module => ".lua"@,
    }
}

impl ScriptKind {
    /// The file extension, dot included, of the source file of such a script.
    pub fn extension(&self) -> (ext: &'static str)
        ensures
            ext@ == extension(*self),
    {
        match self {
            ScriptKind::Server => ".server.lua",
            ScriptKind::Client => ".client.lua",
            ScriptKind::Module => ".lua",
        }
    }
}

impl Representation {
    /// Whether the node becomes a directory.
    pub open spec fn is_directory(self) -> bool {
        !(self is SourceFile)
    }

    /// The script kind of the node's source file, if it has one.
    pub open spec fn source_kind(self) -> Option<ScriptKind> {
        match self {
            Representation::SourceFile(kind) => Some(kind),
            Representation::DirectoryWithInit(kind) => Some(kind),
            Representation::PlainDirectory => None,
        }
    }
}

/// The script kind of a class, if the class is script-like.
pub fn script_kind_of(class: &str) -> (kind: Option<ScriptKind>)
    ensures
        kind == script_kind(class@),
{
    if same_text(class, "Script") {
        Some(ScriptKind::Server)
    } else if same_text(class, "LocalScript") {
        Some(ScriptKind::Client)
    } else if same_text(class, "ModuleScript") {
        Some(ScriptKind::Module)
    } else {
        None
    }
}

/// Whether the catalog has a rule of its own for the class.
pub fn class_has_rule(class: &str) -> (known: bool)
    ensures
        known == has_specific_rule(class@),
{
    script_kind_of(class).is_some() || same_text(class, "Folder") || same_text(class, "Model")
        || same_text(class, "Configuration") || same_text(class, "DataModel") || same_text(
        class,
        "Workspace",
    ) || same_text(class, "Lighting") || same_text(class, "ReplicatedFirst") || same_text(
        class,
        "ReplicatedStorage",
    ) || same_text(class, "ServerScriptService") || same_text(class, "ServerStorage")
        || same_text(class, "StarterGui") || same_text(class, "StarterPack") || same_text(
        class,
        "StarterPlayer",
    ) || same_text(class, "StarterPlayerScripts") || same_text(class, "StarterCharacterScripts")
}

/// Classifies a node. Total: every class, known or unknown, gets exactly one
/// of the three representations.
pub fn classify(class: &str, has_children: bool) -> (rep: Representation)
    ensures
        rep == representation(class@, has_children),
        script_kind(class@) is None ==> rep == Representation::PlainDirectory,
        script_kind(class@) is Some && has_children ==> rep == Representation::DirectoryWithInit(
            script_kind(class@).unwrap(),
        ),
        script_kind(class@) is Some && !has_children ==> rep == Representation::SourceFile(
            script_kind(class@).unwrap(),
        ),
{
    match script_kind_of(class) {
        Some(kind) => if has_children {
            Representation::DirectoryWithInit(kind)
        } else {
            Representation::SourceFile(kind)
        },
        None => Representation::PlainDirectory,
    }
}

} // verus!
