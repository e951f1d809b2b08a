//! Projection of a decoded instance tree onto a directory of source files
//! and a project manifest.
//!
//! A run goes one way, from the tree to the disk:
//!
//! 1. [`plan::build_plan`] walks the tree once, depth first and in the order
//!    of declaration. For every node it decides the kind of filesystem
//!    entity ([`classify`]), resolves a safe and unique name among the
//!    siblings ([`names`]), and sorts the properties into source text,
//!    metadata and what cannot be written ([`properties`], [`value`]). The
//!    result is a write plan and the events of the walk.
//! 2. [`layout::operations`] lays the plan out as operations on the disk,
//!    every directory before what goes into it.
//! 3. [`writer::Writer`] hands the operations out one by one to whoever
//!    performs them, takes the outcome of each, and holds a failure against
//!    the node it belongs to: that node and what is below it are given up,
//!    its siblings are not.
//! 4. [`writer::Writer::finish`] ends the run with a report and with the text
//!    of the manifest ([`manifest`], [`json`]), which names the nodes that
//!    were made and no other.
//!
//! The library touches no file itself. What it states of the disk it states
//! of a model of the disk ([`disk`]): that nothing is written twice, that a
//! directory is there before anything is written into it, and that the
//! manifest and the files read back ([`reader`], [`inverse`]) as the tree
//! that was projected, without what could not be kept. [`capacity`] bounds
//! the size of the directories in which names can run out, and
//! [`frontend`] holds what the command line and the window decide.

pub mod capacity;
pub mod classify;
pub mod disk;
pub mod frontend;
pub mod instance;
pub mod inverse;
pub mod json;
pub mod layout;
pub mod manifest;
pub mod names;
pub mod plan;
pub mod properties;
pub mod reader;
pub mod text;
pub mod value;
pub mod writer;
