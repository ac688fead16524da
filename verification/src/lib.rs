//! A virtual-filesystem core: a tree of directories, files and device leaves
//! addressed by `/`-separated paths, with a read-only device registry and a
//! mutable in-memory filesystem built on it.

pub mod attr;
pub mod device;
pub mod devfs;
pub mod error;
pub mod file;
pub mod laws;
pub mod model;
pub mod path;
pub mod ramfs;
pub mod tree;
pub mod urandom;
pub mod vfs;
