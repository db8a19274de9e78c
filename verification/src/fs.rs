//! The file system layer: node types, the RAM file system and the
//! process-information files.

pub mod vfs;
pub mod ramfs;
pub mod procfs;
