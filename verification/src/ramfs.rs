//! The dynamic filesystem: directories and files made and removed on
//! demand, held in memory.

use vstd::prelude::*;
use crate::attr::{NodeAttr, NodeKind};
use crate::error::FsError;
use crate::model::{NodeId, TreeView, ROOT};
use crate::tree::Tree;
use crate::vfs::NodeOps;

verus! {

/// A filesystem in memory that can be changed at any time.
pub struct RamFileSystem {
    tree: Tree,
}

impl View for RamFileSystem {
    type V = TreeView;

    closed spec fn view(&self) -> TreeView {
        self.tree@
    }
}

impl RamFileSystem {
    /// A filesystem that holds an empty root directory and nothing else.
    pub fn new() -> (fs: Self)
        ensures
            fs.wf(),
            !fs.read_only(),
            fs@.nodes.len() == 1,
            fs@.is_dir(ROOT),
            fs@.has_no_entries(ROOT),
    {
        RamFileSystem { tree: Tree::new() }
    }
}

impl NodeOps for RamFileSystem {
    closed spec fn wf(&self) -> bool {
        self.tree.wf()
    }

    open spec fn read_only(&self) -> bool {
        false
    }

    proof fn lemma_wf(&self) {
        self.tree.lemma_wf();
    }

    fn contains(&self, id: NodeId) -> (b: bool) {
        self.tree.contains(id)
    }

    fn root_dir(&self) -> (id: NodeId) {
        proof {
            self.tree.lemma_wf();
        }
        self.tree.root()
    }

    fn get_attr(&self, id: NodeId) -> (attr: NodeAttr) {
        self.tree.get_attr(id)
    }

    fn parent(&self, id: NodeId) -> (parent: Option<NodeId>) {
        self.tree.parent(id)
    }

    fn lookup(&self, start: NodeId, path: &str) -> (res: Result<NodeId, FsError>) {
        self.tree.lookup(start, path)
    }

    fn get_entries(&self, dir: NodeId) -> (res: Result<Vec<String>, FsError>) {
        self.tree.get_entries(dir)
    }

    fn create(&mut self, start: NodeId, path: &str, kind: NodeKind) -> (res: Result<NodeId, FsError>) {
        self.tree.create(start, path, kind)
    }

    fn remove(&mut self, start: NodeId, path: &str) -> (res: Result<(), FsError>) {
        self.tree.remove(start, path)
    }

    fn read_at(&mut self, id: NodeId, offset: u64, buf: &mut [u8]) -> (res: Result<usize, FsError>) {
        self.tree.read_at(id, offset, buf)
    }

    fn write_at(&mut self, id: NodeId, offset: u64, data: &[u8]) -> (res: Result<usize, FsError>) {
        self.tree.write_at(id, offset, data)
    }

    fn truncate(&mut self, id: NodeId, size: u64) -> (res: Result<(), FsError>) {
        self.tree.truncate(id, size)
    }
}

} // verus!
