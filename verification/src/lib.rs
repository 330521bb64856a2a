//! The logic of the `rc` object-storage command line: parsing the paths and
//! arguments of its commands, building and drawing the `tree` view of a
//! listing, tag and policy handling, version listings, and the decisions
//! taken while a command connects to its server.

pub mod admin;
pub mod exit_code;
pub mod pattern;
pub mod remote_path;
pub mod setup;
pub mod size_text;
pub mod tag;
pub mod text;
pub mod tree;
pub mod version;
