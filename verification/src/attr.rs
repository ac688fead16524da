//! Node kinds and node attributes.

use vstd::prelude::*;
use axfs_vfs::VfsNodePerm;

verus! {

/// What a node is.
#[derive(Clone, Copy, Debug, PartialEq, Eq, Structural)]
pub enum NodeKind {
    /// A directory: a mapping from names to child nodes.
    Directory,
    /// A regular file: a growable sequence of bytes.
    File,
    /// A device leaf with synthetic contents.
    Device,
}

/// The permission bits that files and device leaves report.
pub open spec fn file_mode() -> u32 {
    0o666
}

/// The permission bits that directories report.
pub open spec fn dir_mode() -> u32 {
    0o755
}

/// Calls `axfs_vfs::VfsNodePerm::default_file` and reads the mode bits of
/// what it returns with `VfsNodePerm::mode`. The permission is built from
/// the constant `0o666`, every bit of which is a declared flag, so these are
/// the bits that come back.
#[verifier::external_body]
fn default_file_mode() -> (mode: u32)
    ensures
        mode == file_mode(),
{
    VfsNodePerm::default_file().mode()
}

/// Calls `axfs_vfs::VfsNodePerm::default_dir` and reads the mode bits of
/// what it returns with `VfsNodePerm::mode`. The permission is built from
/// the constant `0o755`, every bit of which is a declared flag, so these are
/// the bits that come back.
#[verifier::external_body]
fn default_dir_mode() -> (mode: u32)
    ensures
        mode == dir_mode(),
{
    VfsNodePerm::default_dir().mode()
}

/// The attributes of a node: permission bits, kind and size in bytes.
#[derive(Clone, Copy, Debug, PartialEq, Eq, Structural)]
pub struct NodeAttr {
    pub mode: u32,
    pub kind: NodeKind,
    pub size: u64,
}

impl NodeAttr {
    /// The attributes of a directory. A directory has size 0.
    pub open spec fn spec_dir() -> NodeAttr {
        NodeAttr { mode: dir_mode(), kind: NodeKind::Directory, size: 0 }
    }

    /// The attributes of a regular file that holds `size` bytes.
    pub open spec fn spec_file(size: u64) -> NodeAttr {
        NodeAttr { mode: file_mode(), kind: NodeKind::File, size }
    }

    /// The attributes of a device leaf. A device has size 0.
    pub open spec fn spec_device() -> NodeAttr {
        NodeAttr { mode: file_mode(), kind: NodeKind::Device, size: 0 }
    }

    /// Attributes of a directory, with the default directory permission.
    pub fn new_dir() -> (attr: NodeAttr)
        ensures
            attr == Self::spec_dir(),
    {
        NodeAttr { mode: default_dir_mode(), kind: NodeKind::Directory, size: 0 }
    }

    /// Attributes of a regular file of `size` bytes, with the default file
    /// permission.
    pub fn new_file(size: u64) -> (attr: NodeAttr)
        ensures
            attr == Self::spec_file(size),
    {
        NodeAttr { mode: default_file_mode(), kind: NodeKind::File, size }
    }

    /// Attributes of a device leaf, with the default file permission.
    pub fn new_device() -> (attr: NodeAttr)
        ensures
            attr == Self::spec_device(),
    {
        NodeAttr { mode: default_file_mode(), kind: NodeKind::Device, size: 0 }
    }

    /// Whether the node is a directory.
    pub fn is_dir(&self) -> (b: bool)
        ensures
            b == (self.kind == NodeKind::Directory),
    {
        self.kind == NodeKind::Directory
    }

    /// Whether the node is a regular file.
    pub fn is_file(&self) -> (b: bool)
        ensures
            b == (self.kind == NodeKind::File),
    {
        self.kind == NodeKind::File
    }
}

} // verus!
