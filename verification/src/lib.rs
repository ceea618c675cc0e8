//! A verified core for a directory-mirroring tool: a reversible name codec,
//! a path-safety validator, and a two-phase tree reconciler, all stated and
//! proved over an in-memory model of the relevant file trees.
pub mod file_names;
pub mod image;
pub mod laws;
pub mod mapper;
pub mod model;
pub mod settings;
