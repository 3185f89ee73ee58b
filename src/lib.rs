//! Change planning and transactional apply for the packages of a Unity project
//! managed by a VPM-style package manager.
//!
//! Planning (`add_package`, `resolve`, `changes`, `sweep`, `legacy`, `plan`) turns
//! a request into a `PendingProjectChanges` value without touching the project;
//! `apply` carries such a plan out on the project's file tree and rolls every
//! change back when installing fails.

pub mod version;
pub mod assoc;
pub mod package;
pub mod manifest;
pub mod fs;
pub mod project;
pub mod graph;
pub mod changes;
pub mod sweep;
pub mod resolve;
pub mod legacy;
pub mod plan;
pub mod add_package;
pub mod apply;
pub mod gui;
pub mod utils;
