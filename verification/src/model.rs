//! The mathematical model of a filesystem: a sequence of nodes, each with a
//! parent relation and a body, and path resolution over it.

use vstd::prelude::*;
use crate::attr::{NodeAttr, NodeKind};
use crate::device::DeviceView;
use crate::error::FsError;
use crate::file::{read_len, read_result, truncate_result, write_result};
use crate::path::{
    components, dot, dot_dot, is_absolute, is_entry_name, lemma_components_are_names,
};

verus! {

/// The identity of a node. A node keeps its identity for as long as the
/// filesystem lives, whether or not a path still leads to it.
pub type NodeId = usize;

/// The identity of the root directory.
pub const ROOT: NodeId = 0;

/// What a node holds.
pub enum BodyView {
    /// A directory: the mapping from entry names to child nodes.
    Directory(Map<Seq<char>, NodeId>),
    /// A regular file: its bytes.
    File(Seq<u8>),
    /// A device leaf.
    Device(DeviceView),
}

/// A node: the directory it was created in, if any, and what it holds.
pub struct NodeView {
    pub parent: Option<NodeId>,
    pub body: BodyView,
}

/// A filesystem: its nodes, indexed by identity.
pub struct TreeView {
    pub nodes: Seq<NodeView>,
}

/// The names in `names`, as sequences of characters.
pub open spec fn name_views(names: Seq<String>) -> Seq<Seq<char>> {
    Seq::new(names.len(), |i: int| names[i]@)
}

/// The filesystem that holds an empty root directory and nothing else: one
/// node, a directory without a parent and without entries.
pub open spec fn empty_tree() -> TreeView {
    TreeView {
        nodes: seq![NodeView { parent: None, body: BodyView::Directory(Map::empty()) }],
    }
}

/// What a newly created node of `kind` holds: no entries, no bytes, or the
/// null sink.
pub open spec fn empty_body(kind: NodeKind) -> BodyView {
    match kind {
        NodeKind::Directory => BodyView::Directory(Map::empty()),
        NodeKind::File => BodyView::File(Seq::empty()),
        NodeKind::Device => BodyView::Device(DeviceView::Null),
    }
}

impl TreeView {
    /// Whether `id` identifies a node of this filesystem.
    pub open spec fn contains(self, id: NodeId) -> bool {
        id < self.nodes.len()
    }

    /// The body of node `id`.
    pub open spec fn body(self, id: NodeId) -> BodyView {
        self.nodes[id as int].body
    }

    /// The directory that node `id` was created in; `None` for the root.
    pub open spec fn parent(self, id: NodeId) -> Option<NodeId> {
        self.nodes[id as int].parent
    }

    /// The kind of node `id`.
    pub open spec fn kind(self, id: NodeId) -> NodeKind {
        match self.body(id) {
            BodyView::Directory(_) => NodeKind::Directory,
            BodyView::File(_) => NodeKind::File,
            BodyView::Device(_) => NodeKind::Device,
        }
    }

    /// Whether node `id` is a directory.
    pub open spec fn is_dir(self, id: NodeId) -> bool {
        self.body(id) is Directory
    }

    /// The entries of directory `id`; no entries for any other node.
    pub open spec fn children(self, id: NodeId) -> Map<Seq<char>, NodeId> {
        match self.body(id) {
            BodyView::Directory(entries) => entries,
            _ => Map::empty(),
        }
    }

    /// Whether node `id` has no entries.
    pub open spec fn has_no_entries(self, id: NodeId) -> bool {
        forall|name: Seq<char>| !(#[trigger] self.children(id).contains_key(name))
    }

    /// The attributes of node `id`: directories and devices have size 0, a
    /// file has the length of its content.
    pub open spec fn attr(self, id: NodeId) -> NodeAttr {
        match self.body(id) {
            BodyView::Directory(_) => NodeAttr::spec_dir(),
            BodyView::File(content) => NodeAttr::spec_file(content.len() as u64),
            BodyView::Device(_) => NodeAttr::spec_device(),
        }
    }

    /// The invariant of a filesystem.
    ///
    /// - The root is a directory without a parent.
    /// - Every other node has a parent, which is a directory that was
    ///   created before it.
    /// - Every entry of a directory has a proper name and leads to a node
    ///   whose parent is that directory.
    /// - No node is entered under two names.
    pub open spec fn wf(self) -> bool {
        &&& 0 < self.nodes.len() <= usize::MAX
        &&& self.is_dir(ROOT)
        &&& self.parent(ROOT) is None
        &&& forall|id: NodeId|
            self.contains(id) && id != ROOT ==> {
                &&& #[trigger] self.parent(id) matches Some(p)
                &&& p < id
                &&& self.is_dir(p)
            }
        &&& forall|dir: NodeId, name: Seq<char>|
            self.contains(dir) && #[trigger] self.children(dir).contains_key(name) ==> {
                &&& is_entry_name(name)
                &&& self.contains(self.children(dir)[name])
                &&& self.parent(self.children(dir)[name]) == Some(dir)
            }
        &&& forall|dir: NodeId, a: Seq<char>, b: Seq<char>|
            self.contains(dir) && #[trigger] self.children(dir).contains_key(a)
                && #[trigger] self.children(dir).contains_key(b) && self.children(dir)[a]
                == self.children(dir)[b] ==> a == b
    }

    /// One step of path resolution, from node `cur` along component `name`.
    ///
    /// `.` stays; `..` goes to the parent, or stays where there is none;
    /// any other name is looked up in `cur`, which must be a directory.
    pub open spec fn step(self, cur: NodeId, name: Seq<char>) -> Result<NodeId, FsError> {
        if name == dot() {
            Ok(cur)
        } else if name == dot_dot() {
            match self.parent(cur) {
                Some(p) => Ok(p),
                None => Ok(cur),
            }
        } else if !self.is_dir(cur) {
            Err(FsError::NotADirectory)
        } else if self.children(cur).contains_key(name) {
            Ok(self.children(cur)[name])
        } else {
            Err(FsError::NotFound)
        }
    }

    /// Path resolution along a sequence of components, from node `cur`: the
    /// steps are taken in order, and the first failure ends the walk.
    pub open spec fn walk(self, cur: NodeId, names: Seq<Seq<char>>) -> Result<NodeId, FsError>
        decreases names.len(),
    {
        if names.len() == 0 {
            Ok(cur)
        } else {
            match self.step(cur, names[0]) {
                Ok(next) => self.walk(next, names.drop_first()),
                Err(e) => Err(e),
            }
        }
    }

    /// Where the resolution of `path` begins: at the root for a path that
    /// begins with the separator, at `start` otherwise.
    pub open spec fn base(self, start: NodeId, path: Seq<char>) -> NodeId {
        if is_absolute(path) {
            ROOT
        } else {
            start
        }
    }

    /// The node that `path` leads to from `start`.
    pub open spec fn resolve(self, start: NodeId, path: Seq<char>) -> Result<NodeId, FsError> {
        self.walk(self.base(start, path), components(path))
    }

    /// The directory operation `lookup`: resolution from a directory, and
    /// `NotADirectory` from any other node.
    pub open spec fn lookup(self, start: NodeId, path: Seq<char>) -> Result<NodeId, FsError> {
        if self.is_dir(start) {
            self.resolve(start, path)
        } else {
            Err(FsError::NotADirectory)
        }
    }

    /// The directory and the entry name that `path` designates from the
    /// directory `start`: all components but the last are resolved, the last
    /// is the name. `no_name` is the error for a path that ends in no name:
    /// one without components, or whose last component is `.` or `..`.
    pub open spec fn locate(self, start: NodeId, path: Seq<char>, no_name: FsError) -> Result<
        (NodeId, Seq<char>),
        FsError,
    > {
        let names = components(path);
        if !self.is_dir(start) {
            Err(FsError::NotADirectory)
        } else if names.len() == 0 {
            Err(no_name)
        } else {
            match self.walk(self.base(start, path), names.drop_last()) {
                Err(e) => Err(e),
                Ok(dir) => if names.last() == dot() || names.last() == dot_dot() {
                    Err(no_name)
                } else {
                    Ok((dir, names.last()))
                },
            }
        }
    }

    /// Whether a node can be entered in `dir` under `name`, and the
    /// identity it gets.
    pub open spec fn insert_outcome(self, dir: NodeId, name: Seq<char>) -> Result<NodeId, FsError> {
        if !self.is_dir(dir) {
            Err(FsError::NotADirectory)
        } else if self.children(dir).contains_key(name) {
            Err(FsError::AlreadyExists)
        } else {
            Ok(self.nodes.len() as NodeId)
        }
    }

    /// The filesystem after a new node with `body` was entered in `dir`
    /// under `name`. The new node gets the next free identity.
    pub open spec fn after_insert(self, dir: NodeId, name: Seq<char>, body: BodyView) -> TreeView {
        let id = self.nodes.len() as NodeId;
        let entries = self.children(dir).insert(name, id);
        let dir_node = NodeView { parent: self.parent(dir), body: BodyView::Directory(entries) };
        let node = NodeView { parent: Some(dir), body };
        TreeView { nodes: self.nodes.update(dir as int, dir_node).push(node) }
    }

    /// Whether the entry `name` of `dir` can be removed.
    pub open spec fn unlink_outcome(self, dir: NodeId, name: Seq<char>) -> Result<(), FsError> {
        if !self.is_dir(dir) {
            Err(FsError::NotADirectory)
        } else if !self.children(dir).contains_key(name) {
            Err(FsError::NotFound)
        } else if !self.has_no_entries(self.children(dir)[name]) {
            Err(FsError::DirectoryNotEmpty)
        } else {
            Ok(())
        }
    }

    /// The filesystem after the entry `name` of `dir` was removed. The node
    /// it led to stays as it is, reachable by its identity only.
    pub open spec fn after_unlink(self, dir: NodeId, name: Seq<char>) -> TreeView {
        let entries = self.children(dir).remove(name);
        let dir_node = NodeView { parent: self.parent(dir), body: BodyView::Directory(entries) };
        TreeView { nodes: self.nodes.update(dir as int, dir_node) }
    }

    /// The outcome of `create` with `path`, from the directory `start`.
    pub open spec fn create_outcome(self, start: NodeId, path: Seq<char>) -> Result<
        NodeId,
        FsError,
    > {
        match self.locate(start, path, FsError::AlreadyExists) {
            Err(e) => Err(e),
            Ok((dir, name)) => self.insert_outcome(dir, name),
        }
    }

    /// The filesystem after `create` with `path` and `kind`: unchanged
    /// unless the outcome is a success.
    pub open spec fn after_create(self, start: NodeId, path: Seq<char>, kind: NodeKind) -> TreeView {
        match self.locate(start, path, FsError::AlreadyExists) {
            Ok((dir, name)) if self.insert_outcome(dir, name) is Ok => self.after_insert(
                dir,
                name,
                empty_body(kind),
            ),
            _ => self,
        }
    }

    /// The outcome of `remove` with `path`, from the directory `start`.
    pub open spec fn remove_outcome(self, start: NodeId, path: Seq<char>) -> Result<(), FsError> {
        match self.locate(start, path, FsError::InvalidInput) {
            Err(e) => Err(e),
            Ok((dir, name)) => self.unlink_outcome(dir, name),
        }
    }

    /// The filesystem after `remove` with `path`: unchanged unless the
    /// outcome is a success.
    pub open spec fn after_remove(self, start: NodeId, path: Seq<char>) -> TreeView {
        match self.locate(start, path, FsError::InvalidInput) {
            Ok((dir, name)) if self.unlink_outcome(dir, name) is Ok => self.after_unlink(
                dir,
                name,
            ),
            _ => self,
        }
    }

    /// Whether a node with `body` can be entered in `dir` under `name` by
    /// its name alone, and the identity it gets: the name must be a proper
    /// entry name.
    pub open spec fn add_outcome(self, dir: NodeId, name: Seq<char>) -> Result<NodeId, FsError> {
        if !self.is_dir(dir) {
            Err(FsError::NotADirectory)
        } else if !is_entry_name(name) {
            Err(FsError::InvalidInput)
        } else {
            self.insert_outcome(dir, name)
        }
    }

    /// The filesystem after a node with `body` was added to `dir` under
    /// `name`: unchanged unless the outcome is a success.
    pub open spec fn after_add(self, dir: NodeId, name: Seq<char>, body: BodyView) -> TreeView {
        if self.add_outcome(dir, name) is Ok {
            self.after_insert(dir, name, body)
        } else {
            self
        }
    }

    /// Whether `res` and `after` can be the result of reading node `id` at
    /// `offset` into a buffer that held `before`.
    ///
    /// A directory refuses and leaves the buffer alone; a file copies the
    /// bytes it has from `offset` on into the front of the buffer; a device
    /// does what its kind says.
    pub open spec fn read_outcome(
        self,
        id: NodeId,
        offset: u64,
        before: Seq<u8>,
        after: Seq<u8>,
        res: Result<usize, FsError>,
    ) -> bool {
        match self.body(id) {
            BodyView::Directory(_) => res == Err::<usize, FsError>(FsError::IsADirectory) && after
                == before,
            BodyView::File(content) => {
                &&& res is Ok
                &&& res->Ok_0 == read_len(content.len(), offset, before.len())
                &&& after == read_result(content, offset, before)
            },
            BodyView::Device(dev) => res is Ok && dev.read_outcome(before, after, res->Ok_0),
        }
    }

    /// The result of writing `len` bytes to node `id`: a directory refuses,
    /// a file and a device take them all.
    pub open spec fn write_outcome(self, id: NodeId, len: nat) -> Result<usize, FsError> {
        if self.is_dir(id) {
            Err(FsError::IsADirectory)
        } else {
            Ok(len as usize)
        }
    }

    /// The result of truncating node `id`: a directory refuses.
    pub open spec fn truncate_outcome(self, id: NodeId) -> Result<(), FsError> {
        if self.is_dir(id) {
            Err(FsError::IsADirectory)
        } else {
            Ok(())
        }
    }

    /// Whether every node of this filesystem is a node of `later`, of the
    /// same kind and with the same parent.
    pub open spec fn persists_in(self, later: TreeView) -> bool {
        forall|id: NodeId| #[trigger]
            self.contains(id) ==> {
                &&& later.contains(id)
                &&& later.kind(id) == self.kind(id)
                &&& later.parent(id) == self.parent(id)
            }
    }

    /// Whether no node of the filesystem is a regular file.
    pub open spec fn holds_no_file(self) -> bool {
        forall|id: NodeId| self.contains(id) ==> !(#[trigger] self.body(id) is File)
    }

    /// Whether `other` has the nodes of this filesystem, with the same
    /// parents, entries and contents: the two differ at most in the state
    /// of their devices.
    pub open spec fn same_but_device_state(self, other: TreeView) -> bool {
        &&& self.nodes.len() == other.nodes.len()
        &&& forall|id: NodeId|
            self.contains(id) ==> {
                &&& #[trigger] self.parent(id) == other.parent(id)
                &&& self.kind(id) == other.kind(id)
                &&& self.kind(id) != NodeKind::Device ==> self.body(id) == other.body(id)
            }
    }

    /// The filesystem with the body of node `id` replaced.
    pub open spec fn with_body(self, id: NodeId, body: BodyView) -> TreeView {
        TreeView { nodes: self.nodes.update(id as int, NodeView { parent: self.parent(id), body }) }
    }

    /// The filesystem after `data` was written to node `id` at `offset`: a
    /// file changes as a write says, a device discards the data, and a
    /// directory refuses.
    pub open spec fn after_write(self, id: NodeId, offset: u64, data: Seq<u8>) -> TreeView {
        match self.body(id) {
            BodyView::File(content) => self.with_body(
                id,
                BodyView::File(write_result(content, offset, data)),
            ),
            _ => self,
        }
    }

    /// The filesystem after node `id` was truncated to `size`.
    pub open spec fn after_truncate(self, id: NodeId, size: u64) -> TreeView {
        match self.body(id) {
            BodyView::File(content) => self.with_body(
                id,
                BodyView::File(truncate_result(content, size)),
            ),
            _ => self,
        }
    }

    /// The filesystem after `len` bytes were asked of node `id`: only the
    /// state of a pseudorandom source changes.
    pub open spec fn after_read(self, id: NodeId, len: nat) -> TreeView {
        match self.body(id) {
            BodyView::Device(dev) => self.with_body(id, BodyView::Device(dev.after_read(len))),
            _ => self,
        }
    }
}

/// Entering a new leaf or a new empty directory under a fresh proper name
/// keeps the invariant of the filesystem.
pub proof fn lemma_after_insert_wf(tree: TreeView, dir: NodeId, name: Seq<char>, body: BodyView)
    requires
        tree.wf(),
        tree.nodes.len() < usize::MAX,
        tree.contains(dir),
        tree.insert_outcome(dir, name) is Ok,
        is_entry_name(name),
        body is Directory ==> body == BodyView::Directory(Map::empty()),
    ensures
        tree.after_insert(dir, name, body).wf(),
{
    let after = tree.after_insert(dir, name, body);
    let id = tree.nodes.len() as NodeId;
    assert(after.contains(id));
    assert(after.body(id) == body);
    assert(after.parent(id) == Some(dir));
    assert(after.children(dir) == tree.children(dir).insert(name, id));
    assert forall|n: NodeId| tree.contains(n) implies after.parent(n) == tree.parent(n)
        && after.is_dir(n) == tree.is_dir(n) && (n != dir ==> after.children(n)
        == tree.children(n)) by {}
    assert forall|n: NodeId| after.contains(n) && n != ROOT implies {
        &&& #[trigger] after.parent(n) matches Some(p)
        &&& p < n
        &&& after.is_dir(p)
    } by {
        if n != id {
            assert(tree.contains(n));
            assert(tree.parent(n) is Some);
        }
    }
    assert forall|d: NodeId, a: Seq<char>|
        after.contains(d) && #[trigger] after.children(d).contains_key(a) implies {
        &&& is_entry_name(a)
        &&& after.contains(after.children(d)[a])
        &&& after.parent(after.children(d)[a]) == Some(d)
    } by {
        if d == id {
            assert(after.children(d) =~= Map::<Seq<char>, NodeId>::empty()) by {
                match body {
                    BodyView::Directory(_) => {},
                    _ => {},
                }
            }
        } else if d == dir {
            if a != name {
                assert(tree.children(dir).contains_key(a));
            }
        } else {
            assert(tree.children(d).contains_key(a));
        }
    }
    assert forall|d: NodeId, a: Seq<char>, b: Seq<char>|
        after.contains(d) && #[trigger] after.children(d).contains_key(a)
            && #[trigger] after.children(d).contains_key(b) && after.children(d)[a]
            == after.children(d)[b] implies a == b by {
        if d == id {
            assert(after.children(d) =~= Map::<Seq<char>, NodeId>::empty()) by {
                match body {
                    BodyView::Directory(_) => {},
                    _ => {},
                }
            }
        } else if d == dir {
            if a != name {
                assert(tree.children(dir).contains_key(a));
                assert(tree.contains(tree.children(dir)[a]));
            }
            if b != name {
                assert(tree.children(dir).contains_key(b));
                assert(tree.contains(tree.children(dir)[b]));
            }
        } else {
            assert(tree.children(d).contains_key(a));
            assert(tree.children(d).contains_key(b));
        }
    }
}

/// Removing an entry keeps the invariant of the filesystem.
pub proof fn lemma_after_unlink_wf(tree: TreeView, dir: NodeId, name: Seq<char>)
    requires
        tree.wf(),
        tree.contains(dir),
        tree.is_dir(dir),
    ensures
        tree.after_unlink(dir, name).wf(),
{
    let after = tree.after_unlink(dir, name);
    assert(after.children(dir) == tree.children(dir).remove(name));
    assert forall|n: NodeId| tree.contains(n) implies after.parent(n) == tree.parent(n)
        && after.is_dir(n) == tree.is_dir(n) && (n != dir ==> after.children(n)
        == tree.children(n)) by {}
    assert forall|n: NodeId| after.contains(n) && n != ROOT implies {
        &&& #[trigger] after.parent(n) matches Some(p)
        &&& p < n
        &&& after.is_dir(p)
    } by {
        assert(tree.parent(n) is Some);
    }
    assert forall|d: NodeId, a: Seq<char>|
        after.contains(d) && #[trigger] after.children(d).contains_key(a) implies {
        &&& is_entry_name(a)
        &&& after.contains(after.children(d)[a])
        &&& after.parent(after.children(d)[a]) == Some(d)
    } by {
        assert(tree.children(d).contains_key(a));
    }
    assert forall|d: NodeId, a: Seq<char>, b: Seq<char>|
        after.contains(d) && #[trigger] after.children(d).contains_key(a)
            && #[trigger] after.children(d).contains_key(b) && after.children(d)[a]
            == after.children(d)[b] implies a == b by {
        assert(tree.children(d).contains_key(a));
        assert(tree.children(d).contains_key(b));
    }
}

/// Replacing what a leaf holds by what a leaf can hold keeps the invariant
/// of the filesystem.
pub proof fn lemma_with_body_wf(tree: TreeView, id: NodeId, body: BodyView)
    requires
        tree.wf(),
        tree.contains(id),
        !tree.is_dir(id),
        !(body is Directory),
    ensures
        tree.with_body(id, body).wf(),
{
    let after = tree.with_body(id, body);
    assert forall|n: NodeId| tree.contains(n) implies after.parent(n) == tree.parent(n)
        && after.is_dir(n) == tree.is_dir(n) && after.children(n) == tree.children(n) by {}
    assert forall|n: NodeId| after.contains(n) && n != ROOT implies {
        &&& #[trigger] after.parent(n) matches Some(p)
        &&& p < n
        &&& after.is_dir(p)
    } by {
        assert(tree.parent(n) is Some);
    }
    assert forall|d: NodeId, a: Seq<char>|
        after.contains(d) && #[trigger] after.children(d).contains_key(a) implies {
        &&& is_entry_name(a)
        &&& after.contains(after.children(d)[a])
        &&& after.parent(after.children(d)[a]) == Some(d)
    } by {
        assert(tree.children(d).contains_key(a));
    }
    assert forall|d: NodeId, a: Seq<char>, b: Seq<char>|
        after.contains(d) && #[trigger] after.children(d).contains_key(a)
            && #[trigger] after.children(d).contains_key(b) && after.children(d)[a]
            == after.children(d)[b] implies a == b by {
        assert(tree.children(d).contains_key(a));
        assert(tree.children(d).contains_key(b));
    }
}

/// The name that a path designates is a proper entry name.
pub proof fn lemma_locate_name(tree: TreeView, start: NodeId, path: Seq<char>, no_name: FsError)
    ensures
        tree.locate(start, path, no_name) matches Ok((_, name)) ==> is_entry_name(name),
{
    lemma_components_are_names(path);
}

/// Adding a node to a directory drops no node, changes the kind of none and
/// gives none another parent.
pub proof fn lemma_after_add_persists(tree: TreeView, dir: NodeId, name: Seq<char>, body: BodyView)
    requires
        tree.contains(dir),
        tree.is_dir(dir),
        tree.nodes.len() <= usize::MAX,
    ensures
        tree.persists_in(tree.after_insert(dir, name, body)),
        tree.persists_in(tree.after_add(dir, name, body)),
{
    let after = tree.after_insert(dir, name, body);
    assert forall|n: NodeId| #[trigger] tree.contains(n) implies after.contains(n) && after.kind(n)
        == tree.kind(n) && after.parent(n) == tree.parent(n) by {}
}

/// A walk that begins at a node of the filesystem ends at one.
pub proof fn lemma_walk_contains(tree: TreeView, cur: NodeId, names: Seq<Seq<char>>)
    requires
        tree.wf(),
        tree.contains(cur),
    ensures
        tree.walk(cur, names) matches Ok(node) ==> tree.contains(node),
    decreases names.len(),
{
    if names.len() > 0 {
        match tree.step(cur, names[0]) {
            Ok(next) => {
                if names[0] == dot() {
                } else if names[0] == dot_dot() {
                    if cur != ROOT {
                        assert(tree.parent(cur) is Some);
                    }
                } else {
                    assert(tree.children(cur).contains_key(names[0]));
                }
                lemma_walk_contains(tree, next, names.drop_first());
            },
            Err(_) => {},
        }
    }
}

/// The directory that a path designates is a node of the filesystem.
pub proof fn lemma_locate_contains(tree: TreeView, start: NodeId, path: Seq<char>, no_name: FsError)
    requires
        tree.wf(),
        tree.contains(start),
    ensures
        tree.locate(start, path, no_name) matches Ok((dir, _)) ==> tree.contains(dir),
{
    lemma_walk_contains(tree, tree.base(start, path), components(path).drop_last());
}

} // verus!
