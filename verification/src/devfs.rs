//! The static device registry: a tree of directories and device leaves
//! that is built once and read-only from then on.

use vstd::prelude::*;
use crate::attr::{NodeAttr, NodeKind};
use crate::device::Device;
use crate::error::FsError;
use crate::model::{empty_body, empty_tree, BodyView, NodeId, TreeView, ROOT};
use crate::tree::Tree;
use crate::vfs::{after_create, after_remove, create_outcome, remove_outcome, NodeOps};

verus! {

/// A device filesystem under construction. Directories and devices are
/// added to it; `build` then hands out the finished, read-only filesystem.
pub struct DeviceFsBuilder {
    tree: Tree,
}

impl View for DeviceFsBuilder {
    type V = TreeView;

    closed spec fn view(&self) -> TreeView {
        self.tree@
    }
}

impl DeviceFsBuilder {
    /// The invariant of the builder: that of the tree, and no node is a
    /// regular file.
    pub closed spec fn wf(&self) -> bool {
        &&& self.tree.wf()
        &&& self@.holds_no_file()
    }

    /// A builder that holds an empty root directory and nothing else: the
    /// root has no parent and no entries, and there is no other node.
    pub fn new() -> (builder: Self)
        ensures
            builder.wf(),
            builder@ == empty_tree(),
            builder@.nodes.len() == 1,
            builder@.is_dir(ROOT),
            builder@.parent(ROOT) is None,
            builder@.has_no_entries(ROOT),
    {
        let tree = Tree::new();
        DeviceFsBuilder { tree }
    }

    /// The root directory.
    pub fn root(&self) -> (id: NodeId)
        requires
            self.wf(),
        ensures
            id == ROOT,
            self@.contains(id),
    {
        proof {
            self.tree.lemma_wf();
        }
        self.tree.root()
    }

    /// Add the device `dev` to the directory `dir` under `name`, and return
    /// the identity of the new node.
    ///
    /// Fails with `NotADirectory` if `dir` is not a directory, with
    /// `InvalidInput` if `name` is not a proper entry name (it is empty,
    /// holds a separator, or is `.` or `..`), and with `AlreadyExists` if the
    /// name is present. A failed call changes nothing.
    pub fn add(&mut self, dir: NodeId, name: &str, dev: Device) -> (res: Result<NodeId, FsError>)
        requires
            old(self).wf(),
            old(self)@.contains(dir),
        ensures
            final(self).wf(),
            res == old(self)@.add_outcome(dir, name@),
            final(self)@ == old(self)@.after_add(dir, name@, BodyView::Device(dev@)),
            old(self)@.persists_in(final(self)@),
            res matches Ok(node) ==> final(self)@.contains(node),
    {
        let res = self.tree.add_device(dir, name, dev);
        proof {
            assert forall|id: NodeId| self@.contains(id) implies !(#[trigger] self@.body(id) is File) by {
                if id < old(self)@.nodes.len() {
                    assert(!(old(self)@.body(id) is File));
                }
            }
        }
        res
    }

    /// Make a new empty directory in the directory `dir` under `name`, and
    /// return its identity, to build further below it.
    ///
    /// Fails as `add` does.
    pub fn mkdir(&mut self, dir: NodeId, name: &str) -> (res: Result<NodeId, FsError>)
        requires
            old(self).wf(),
            old(self)@.contains(dir),
        ensures
            final(self).wf(),
            res == old(self)@.add_outcome(dir, name@),
            final(self)@ == old(self)@.after_add(dir, name@, empty_body(NodeKind::Directory)),
            old(self)@.persists_in(final(self)@),
            res matches Ok(node) ==> final(self)@.contains(node),
    {
        let res = self.tree.add_dir(dir, name);
        proof {
            assert forall|id: NodeId| self@.contains(id) implies !(#[trigger] self@.body(id) is File) by {
                if id < old(self)@.nodes.len() {
                    assert(!(old(self)@.body(id) is File));
                }
            }
        }
        res
    }

    /// Finish the construction: the filesystem that is handed out holds
    /// what was built, and nothing can be added to it or removed from it.
    pub fn build(self) -> (fs: DeviceFileSystem)
        requires
            self.wf(),
        ensures
            fs.wf(),
            fs.read_only(),
            fs@ == self@,
    {
        DeviceFileSystem { tree: self.tree }
    }
}

/// A filesystem of devices. Its directories and entries are fixed; reading
/// a pseudorandom device advances the state of that device, and nothing
/// else ever changes.
pub struct DeviceFileSystem {
    tree: Tree,
}

impl View for DeviceFileSystem {
    type V = TreeView;

    closed spec fn view(&self) -> TreeView {
        self.tree@
    }
}

impl DeviceFileSystem {
    /// The filesystem is read-only: `create` and `remove` fail with
    /// `PermissionDenied`, whatever the directory, the path and the kind,
    /// and leave the filesystem, and so the entries of every directory, as
    /// they are.
    pub proof fn law_read_only(&self, start: NodeId, path: Seq<char>, kind: NodeKind)
        ensures
            create_outcome(self.read_only(), self@, start, path) == Err::<NodeId, FsError>(
                FsError::PermissionDenied,
            ),
            remove_outcome(self.read_only(), self@, start, path) == Err::<(), FsError>(
                FsError::PermissionDenied,
            ),
            after_create(self.read_only(), self@, start, path, kind) == self@,
            after_remove(self.read_only(), self@, start, path) == self@,
    {
    }

    /// The filesystem is immutable: it holds no regular file, a write and a
    /// truncation leave it as it is, and a read changes at most the state
    /// of a device.
    pub proof fn law_immutable(&self, id: NodeId, offset: u64, data: Seq<u8>, size: u64, len: nat)
        requires
            self.wf(),
            self@.contains(id),
        ensures
            self@.holds_no_file(),
            self@.after_write(id, offset, data) == self@,
            self@.after_truncate(id, size) == self@,
            self@.same_but_device_state(self@.after_read(id, len)),
    {
        assert(!(self@.body(id) is File));
    }
}

impl NodeOps for DeviceFileSystem {
    closed spec fn wf(&self) -> bool {
        &&& self.tree.wf()
        &&& self@.holds_no_file()
    }

    open spec fn read_only(&self) -> bool {
        true
    }

    proof fn lemma_wf(&self) {
        self.tree.lemma_wf();
    }

    fn contains(&self, id: NodeId) -> (b: bool) {
        self.tree.contains(id)
    }

    fn root_dir(&self) -> (id: NodeId) {
        proof {
            self.tree.lemma_wf();
        }
        self.tree.root()
    }

    fn get_attr(&self, id: NodeId) -> (attr: NodeAttr) {
        self.tree.get_attr(id)
    }

    fn parent(&self, id: NodeId) -> (parent: Option<NodeId>) {
        self.tree.parent(id)
    }

    fn lookup(&self, start: NodeId, path: &str) -> (res: Result<NodeId, FsError>) {
        self.tree.lookup(start, path)
    }

    fn get_entries(&self, dir: NodeId) -> (res: Result<Vec<String>, FsError>) {
        self.tree.get_entries(dir)
    }

    fn create(&mut self, _start: NodeId, _path: &str, _kind: NodeKind) -> (res: Result<NodeId, FsError>) {
        Err(FsError::PermissionDenied)
    }

    fn remove(&mut self, _start: NodeId, _path: &str) -> (res: Result<(), FsError>) {
        Err(FsError::PermissionDenied)
    }

    fn read_at(&mut self, id: NodeId, offset: u64, buf: &mut [u8]) -> (res: Result<usize, FsError>) {
        let res = self.tree.read_at(id, offset, buf);
        proof {
            assert forall|n: NodeId| self@.contains(n) implies !(#[trigger] self@.body(n) is File) by {
                assert(!(old(self)@.body(n) is File));
            }
        }
        res
    }

    fn write_at(&mut self, id: NodeId, offset: u64, data: &[u8]) -> (res: Result<usize, FsError>) {
        proof {
            assert(!(self@.body(id) is File));
        }
        self.tree.write_at(id, offset, data)
    }

    fn truncate(&mut self, id: NodeId, size: u64) -> (res: Result<(), FsError>) {
        proof {
            assert(!(self@.body(id) is File));
        }
        self.tree.truncate(id, size)
    }
}

} // verus!
