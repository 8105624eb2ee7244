//! Finds the dependencies that many packages of a workspace declare, and
//! moves their declaration into the workspace's shared
//! `[workspace.dependencies]` table.
//!
//! - `aggregate` counts every declaration site per dependency name and
//!   derives the candidates: the names that reach a threshold.
//! - `rewrite` turns each candidate's entry in a package manifest into the
//!   form that inherits from the workspace, leaving every other entry as it
//!   was.
//! - `synthesize` adds one shared declaration per candidate to the root
//!   manifest, never over an entry that is already there.
//! - `report` lists the candidates with the packages that declare them.
//! - `toml_doc` is the editable, formatting-preserving manifest tree of
//!   `toml_edit`, as the other modules see it.
pub mod aggregate;
pub mod report;
pub mod rewrite;
pub mod synthesize;
pub mod toml_doc;
