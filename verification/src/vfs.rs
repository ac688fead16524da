//! The interface that both filesystems offer on their nodes.

use vstd::prelude::*;
use crate::attr::{NodeAttr, NodeKind};
use crate::error::FsError;
use crate::model::{name_views, NodeId, TreeView, ROOT};

verus! {

/// The outcome of `create` on a filesystem: a read-only one refuses.
pub open spec fn create_outcome(
    read_only: bool,
    tree: TreeView,
    start: NodeId,
    path: Seq<char>,
) -> Result<NodeId, FsError> {
    if read_only {
        Err(FsError::PermissionDenied)
    } else {
        tree.create_outcome(start, path)
    }
}

/// The filesystem after `create`: a read-only one is unchanged.
pub open spec fn after_create(
    read_only: bool,
    tree: TreeView,
    start: NodeId,
    path: Seq<char>,
    kind: NodeKind,
) -> TreeView {
    if read_only {
        tree
    } else {
        tree.after_create(start, path, kind)
    }
}

/// The outcome of `remove` on a filesystem: a read-only one refuses.
pub open spec fn remove_outcome(
    read_only: bool,
    tree: TreeView,
    start: NodeId,
    path: Seq<char>,
) -> Result<(), FsError> {
    if read_only {
        Err(FsError::PermissionDenied)
    } else {
        tree.remove_outcome(start, path)
    }
}

/// The filesystem after `remove`: a read-only one is unchanged.
pub open spec fn after_remove(
    read_only: bool,
    tree: TreeView,
    start: NodeId,
    path: Seq<char>,
) -> TreeView {
    if read_only {
        tree
    } else {
        tree.after_remove(start, path)
    }
}

/// The operations on the nodes of a filesystem. A node is named by its
/// identity, which a lookup or a creation hands out.
pub trait NodeOps: View<V = TreeView> {
    /// The invariant of the filesystem.
    spec fn wf(&self) -> bool;

    /// Whether the filesystem refuses to create and to remove.
    spec fn read_only(&self) -> bool;

    /// The invariant of the filesystem holds of its model.
    proof fn lemma_wf(&self)
        requires
            self.wf(),
        ensures
            self@.wf(),
    ;

    /// Whether `id` identifies a node of this filesystem.
    fn contains(&self, id: NodeId) -> (b: bool)
        ensures
            b == self@.contains(id),
    ;

    /// The root directory.
    fn root_dir(&self) -> (id: NodeId)
        requires
            self.wf(),
        ensures
            id == ROOT,
            self@.contains(id),
    ;

    /// The attributes of node `id`.
    fn get_attr(&self, id: NodeId) -> (attr: NodeAttr)
        requires
            self.wf(),
            self@.contains(id),
        ensures
            attr == self@.attr(id),
    ;

    /// The parent of node `id`: the directory it was created in, or `None`
    /// for the root.
    fn parent(&self, id: NodeId) -> (parent: Option<NodeId>)
        requires
            self.wf(),
            self@.contains(id),
        ensures
            parent == self@.parent(id),
            parent matches Some(p) ==> self@.contains(p),
    ;

    /// Resolve `path` from the directory `start`; from a node that is not a
    /// directory, fail with `NotADirectory`.
    fn lookup(&self, start: NodeId, path: &str) -> (res: Result<NodeId, FsError>)
        requires
            self.wf(),
            self@.contains(start),
        ensures
            res == self@.lookup(start, path@),
            res matches Ok(node) ==> self@.contains(node),
    ;

    /// The names of the entries of the directory `dir`, each once, in no
    /// particular order.
    fn get_entries(&self, dir: NodeId) -> (res: Result<Vec<String>, FsError>)
        requires
            self.wf(),
            self@.contains(dir),
        ensures
            match res {
                Ok(names) => {
                    &&& self@.is_dir(dir)
                    &&& name_views(names@).no_duplicates()
                    &&& name_views(names@).to_set() == self@.children(dir).dom()
                },
                Err(e) => !self@.is_dir(dir) && e == FsError::NotADirectory,
            },
    ;

    /// Create a node of `kind` at `path`, seen from the directory `start`.
    /// A read-only filesystem fails with `PermissionDenied` and is left as
    /// it was.
    fn create(&mut self, start: NodeId, path: &str, kind: NodeKind) -> (res: Result<NodeId, FsError>)
        requires
            old(self).wf(),
            old(self)@.contains(start),
        ensures
            final(self).wf(),
            final(self).read_only() == old(self).read_only(),
            res == create_outcome(old(self).read_only(), old(self)@, start, path@),
            final(self)@ == after_create(old(self).read_only(), old(self)@, start, path@, kind),
            old(self)@.persists_in(final(self)@),
            res matches Ok(node) ==> final(self)@.contains(node),
    ;

    /// Remove the entry at `path`, seen from the directory `start`. A
    /// read-only filesystem fails with `PermissionDenied` and is left as it
    /// was.
    fn remove(&mut self, start: NodeId, path: &str) -> (res: Result<(), FsError>)
        requires
            old(self).wf(),
            old(self)@.contains(start),
        ensures
            final(self).wf(),
            final(self).read_only() == old(self).read_only(),
            res == remove_outcome(old(self).read_only(), old(self)@, start, path@),
            final(self)@ == after_remove(old(self).read_only(), old(self)@, start, path@),
            old(self)@.persists_in(final(self)@),
    ;

    /// Read node `id` at `offset` into `buf`.
    fn read_at(&mut self, id: NodeId, offset: u64, buf: &mut [u8]) -> (res: Result<usize, FsError>)
        requires
            old(self).wf(),
            old(self)@.contains(id),
        ensures
            final(self).wf(),
            final(self).read_only() == old(self).read_only(),
            old(self)@.read_outcome(id, offset, old(buf)@, final(buf)@, res),
            final(self)@ == old(self)@.after_read(id, old(buf)@.len()),
            old(self)@.persists_in(final(self)@),
    ;

    /// Write `data` to node `id` at `offset`.
    fn write_at(&mut self, id: NodeId, offset: u64, data: &[u8]) -> (res: Result<usize, FsError>)
        requires
            old(self).wf(),
            old(self)@.contains(id),
            old(self)@.kind(id) == NodeKind::File ==> offset + data@.len() <= usize::MAX,
        ensures
            final(self).wf(),
            final(self).read_only() == old(self).read_only(),
            res == old(self)@.write_outcome(id, data@.len()),
            final(self)@ == old(self)@.after_write(id, offset, data@),
            old(self)@.persists_in(final(self)@),
    ;

    /// Set the size of node `id` to `size`.
    fn truncate(&mut self, id: NodeId, size: u64) -> (res: Result<(), FsError>)
        requires
            old(self).wf(),
            old(self)@.contains(id),
            old(self)@.kind(id) == NodeKind::File ==> size <= usize::MAX,
        ensures
            final(self).wf(),
            final(self).read_only() == old(self).read_only(),
            res == old(self)@.truncate_outcome(id),
            final(self)@ == old(self)@.after_truncate(id, size),
            old(self)@.persists_in(final(self)@),
    ;
}

} // verus!
