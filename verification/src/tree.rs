//! The node tree: directories, files and device leaves held in one arena,
//! with path resolution and the operations on directories and leaves.

use vstd::prelude::*;
use crate::attr::{NodeAttr, NodeKind};
use crate::device::{Device, NullDev};
use crate::error::FsError;
use crate::file::FileNode;
use crate::laws::law_nodes_persist;
use crate::model::{
    empty_body, empty_tree, lemma_after_add_persists, lemma_after_insert_wf, lemma_after_unlink_wf,
    lemma_with_body_wf, name_views, BodyView, NodeId, NodeView, TreeView, ROOT,
};
use crate::path::{
    components, dot, dot_dot, is_entry_name, parse_components, spans_of, to_chars, Span, SEPARATOR,
};

verus! {

/// An entry of a directory: a name and the node it leads to.
struct DirEntry {
    name: String,
    node: NodeId,
}

/// What a node holds.
enum NodeBody {
    Directory(Vec<DirEntry>),
    File(FileNode),
    Device(Device),
}

/// A node of the arena.
struct Node {
    parent: Option<NodeId>,
    body: NodeBody,
}

/// The mapping that a list of entries stands for.
spec fn entries_map(entries: Seq<DirEntry>) -> Map<Seq<char>, NodeId> {
    Map::new(
        |name: Seq<char>| exists|i: int| 0 <= i < entries.len() && entries[i].name@ == name,
        |name: Seq<char>|
            entries[choose|i: int| 0 <= i < entries.len() && entries[i].name@ == name].node,
    )
}

/// No two entries of the list have the same name.
spec fn distinct_names(entries: Seq<DirEntry>) -> bool {
    forall|i: int, j: int|
        0 <= i < j < entries.len() ==> (#[trigger] entries[i]).name@ != (#[trigger] entries[j]).name@
}

/// The entry at position `i` is what the mapping holds under its name.
proof fn lemma_entries_map_at(entries: Seq<DirEntry>, i: int)
    requires
        distinct_names(entries),
        0 <= i < entries.len(),
    ensures
        entries_map(entries).contains_key(entries[i].name@),
        entries_map(entries)[entries[i].name@] == entries[i].node,
{
    let name = entries[i].name@;
    let j = choose|j: int| 0 <= j < entries.len() && entries[j].name@ == name;
    if j < i {
        assert(entries[j].name@ != entries[i].name@);
    } else if i < j {
        assert(entries[i].name@ != entries[j].name@);
    }
}

/// Appending an entry with a fresh name enters it in the mapping.
proof fn lemma_entries_map_push(entries: Seq<DirEntry>, entry: DirEntry)
    requires
        distinct_names(entries),
        !entries_map(entries).contains_key(entry.name@),
    ensures
        distinct_names(entries.push(entry)),
        entries_map(entries.push(entry)) == entries_map(entries).insert(entry.name@, entry.node),
{
    let pushed = entries.push(entry);
    assert forall|i: int, j: int| 0 <= i < j < pushed.len() implies (#[trigger] pushed[i]).name@
        != (#[trigger] pushed[j]).name@ by {
        if j == entries.len() {
            assert(entries[i].name@ == pushed[i].name@);
        } else {
            assert(entries[i].name@ != entries[j].name@);
        }
    }
    let expected = entries_map(entries).insert(entry.name@, entry.node);
    assert forall|name: Seq<char>| entries_map(pushed).contains_key(name) implies #[trigger]
        expected.contains_key(name) && expected[name] == entries_map(pushed)[name] by {
        let i = choose|i: int| 0 <= i < pushed.len() && pushed[i].name@ == name;
        lemma_entries_map_at(pushed, i);
        if i < entries.len() {
            assert(entries[i].name@ == name);
            lemma_entries_map_at(entries, i);
        }
    }
    assert forall|name: Seq<char>| #[trigger] expected.contains_key(name) implies entries_map(
        pushed,
    ).contains_key(name) by {
        if name == entry.name@ {
            assert(pushed[entries.len() as int].name@ == name);
        } else {
            let i = choose|i: int| 0 <= i < entries.len() && entries[i].name@ == name;
            assert(pushed[i].name@ == name);
        }
    }
    assert(entries_map(pushed) =~= expected);
}

/// Taking the entry at position `i` out of the list takes its name out of
/// the mapping.
proof fn lemma_entries_map_remove(entries: Seq<DirEntry>, i: int)
    requires
        distinct_names(entries),
        0 <= i < entries.len(),
    ensures
        distinct_names(entries.remove(i)),
        entries_map(entries.remove(i)) == entries_map(entries).remove(entries[i].name@),
{
    let rest = entries.remove(i);
    assert forall|a: int, b: int| 0 <= a < b < rest.len() implies (#[trigger] rest[a]).name@
        != (#[trigger] rest[b]).name@ by {
        let a0 = if a < i { a } else { a + 1 };
        let b0 = if b < i { b } else { b + 1 };
        assert(entries[a0].name@ != entries[b0].name@);
    }
    let expected = entries_map(entries).remove(entries[i].name@);
    assert forall|name: Seq<char>| entries_map(rest).contains_key(name) implies #[trigger]
        expected.contains_key(name) && expected[name] == entries_map(rest)[name] by {
        let a = choose|a: int| 0 <= a < rest.len() && rest[a].name@ == name;
        lemma_entries_map_at(rest, a);
        let a0 = if a < i { a } else { a + 1 };
        assert(entries[a0].name@ == name);
        lemma_entries_map_at(entries, a0);
        if a0 < i {
            assert(entries[a0].name@ != entries[i].name@);
        } else {
            assert(entries[i].name@ != entries[a0].name@);
        }
    }
    assert forall|name: Seq<char>| #[trigger] expected.contains_key(name) implies entries_map(
        rest,
    ).contains_key(name) by {
        let a0 = choose|a0: int| 0 <= a0 < entries.len() && entries[a0].name@ == name;
        let a = if a0 < i { a0 } else { a0 - 1 };
        assert(rest[a].name@ == name);
    }
    assert(entries_map(rest) =~= expected);
}

/// A list without entries stands for the empty mapping, and only such a
/// list does.
proof fn lemma_entries_map_empty(entries: Seq<DirEntry>)
    ensures
        entries.len() == 0 <==> (forall|name: Seq<char>| !(#[trigger] entries_map(entries).contains_key(name))),
{
    if entries.len() > 0 {
        assert(entries_map(entries).contains_key(entries[0].name@));
    }
}

impl NodeBody {
    spec fn view(&self) -> BodyView {
        match self {
            NodeBody::Directory(entries) => BodyView::Directory(entries_map(entries@)),
            NodeBody::File(file) => BodyView::File(file@),
            NodeBody::Device(dev) => BodyView::Device(dev@),
        }
    }

    /// The entries of a directory have distinct names.
    spec fn inv(&self) -> bool {
        match self {
            NodeBody::Directory(entries) => distinct_names(entries@),
            _ => true,
        }
    }
}

impl Node {
    spec fn view(&self) -> NodeView {
        NodeView { parent: self.parent, body: self.body.view() }
    }
}

/// A filesystem tree. Nodes are identified by their position in the arena;
/// a node is never moved or dropped, so an identity stays valid.
pub struct Tree {
    nodes: Vec<Node>,
}

impl View for Tree {
    type V = TreeView;

    closed spec fn view(&self) -> TreeView {
        TreeView { nodes: Seq::new(self.nodes@.len(), |i: int| self.nodes@[i].view()) }
    }
}

/// Whether the characters of `name` are those of `chars` in `span`.
fn name_eq(name: &str, chars: &Vec<char>, span: Span) -> (eq: bool)
    requires
        span.start <= span.end <= chars@.len(),
    ensures
        eq == (name@ == span.of(chars@)),
{
    let len = span.end - span.start;
    let mut k: usize = 0;
    for c in it: name.chars()
        invariant
            it.seq() == name@,
            k == it.index(),
            k <= len,
            len == span.end - span.start,
            span.end <= chars@.len(),
            forall|j: int| 0 <= j < k ==> name@[j] == chars@[span.start + j],
    {
        if k == len {
            assert(name@.len() > len);
            return false;
        }
        if c != chars[span.start + k] {
            assert(name@[k as int] != span.of(chars@)[k as int]);
            return false;
        }
        k += 1;
    }
    assert(k == name@.len());
    if k == len {
        assert(name@ =~= span.of(chars@));
        true
    } else {
        false
    }
}

/// The position of the entry named by `span`, if there is one.
fn find_entry(entries: &Vec<DirEntry>, chars: &Vec<char>, span: Span) -> (found: Option<usize>)
    requires
        span.start <= span.end <= chars@.len(),
    ensures
        match found {
            Some(i) => i < entries@.len() && entries@[i as int].name@ == span.of(chars@),
            None => forall|i: int| 0 <= i < entries@.len() ==> entries@[i].name@ != span.of(chars@),
        },
{
    let mut i: usize = 0;
    while i < entries.len()
        invariant
            i <= entries@.len(),
            span.start <= span.end <= chars@.len(),
            forall|j: int| 0 <= j < i ==> entries@[j].name@ != span.of(chars@),
        decreases entries@.len() - i,
    {
        if name_eq(entries[i].name.as_str(), chars, span) {
            return Some(i);
        }
        i += 1;
    }
    None
}

/// Whether the component in `span` is `.`.
fn is_dot(chars: &Vec<char>, span: Span) -> (b: bool)
    requires
        span.start <= span.end <= chars@.len(),
    ensures
        b == (span.of(chars@) == dot()),
{
    let b = span.end - span.start == 1 && chars[span.start] == '.';
    proof {
        if b {
            assert(span.of(chars@) =~= dot());
        } else if span.end - span.start == 1 {
            assert(span.of(chars@)[0] != dot()[0]);
        } else {
            assert(span.of(chars@).len() != dot().len());
        }
    }
    b
}

/// Whether the component in `span` is `..`.
fn is_dot_dot(chars: &Vec<char>, span: Span) -> (b: bool)
    requires
        span.start <= span.end <= chars@.len(),
    ensures
        b == (span.of(chars@) == dot_dot()),
{
    let b = span.end - span.start == 2 && chars[span.start] == '.' && chars[span.start + 1] == '.';
    proof {
        if b {
            assert(span.of(chars@) =~= dot_dot());
        } else if span.end - span.start == 2 {
            assert(span.of(chars@)[0] != dot_dot()[0] || span.of(chars@)[1] != dot_dot()[1]);
        } else {
            assert(span.of(chars@).len() != dot_dot().len());
        }
    }
    b
}

/// Whether `chars` can be the name of a directory entry.
fn check_entry_name(chars: &Vec<char>) -> (ok: bool)
    ensures
        ok == is_entry_name(chars@),
{
    let n = chars.len();
    let whole = Span { start: 0, end: n };
    proof {
        assert(whole.of(chars@) =~= chars@);
    }
    if n == 0 || is_dot(chars, whole) || is_dot_dot(chars, whole) {
        return false;
    }
    let mut i: usize = 0;
    while i < n
        invariant
            i <= n,
            n == chars@.len(),
            forall|j: int| 0 <= j < i ==> chars@[j] != SEPARATOR,
        decreases n - i,
    {
        if chars[i] == SEPARATOR {
            assert(chars@.contains(SEPARATOR));
            return false;
        }
        i += 1;
    }
    true
}

/// Where two arenas differ in the body of node `id` alone, and that body is
/// a directory with the same entries or stays a leaf, the second stands
/// for the first with that body replaced, and keeps its invariant.
proof fn lemma_body_replaced(before: Tree, after: Tree, id: NodeId)
    requires
        before.wf(),
        before@.contains(id),
        after.nodes@.len() == before.nodes@.len(),
        forall|i: int| 0 <= i < before.nodes@.len() && i != id ==> after.nodes@[i] == before.nodes@[i],
        after.nodes@[id as int].parent == before.nodes@[id as int].parent,
        match before.nodes@[id as int].body {
            NodeBody::Directory(_) => after.nodes@[id as int].body == before.nodes@[id as int].body,
            _ => !(after.nodes@[id as int].body is Directory),
        },
    ensures
        after.wf(),
        after@ == before@.with_body(id, after.nodes@[id as int].body.view()),
        after.nodes@[id as int].body.view() == before@.body(id) ==> after@ == before@,
{
    let body = after.nodes@[id as int].body.view();
    let expected = before@.with_body(id, body);
    assert(before@.nodes[id as int] == before.nodes@[id as int].view());
    assert forall|i: int| 0 <= i < expected.nodes.len() implies after@.nodes[i]
        == expected.nodes[i] by {
        if i != id {
            assert(before@.nodes[i] == before.nodes@[i].view());
        }
    }
    assert(after@.nodes =~= expected.nodes);
    if body == before@.body(id) {
        assert(expected.nodes =~= before@.nodes);
    } else {
        lemma_with_body_wf(before@, id, body);
    }
}

impl Tree {
    /// The invariant of the tree: that of its model, and in every directory
    /// no name is entered twice.
    pub closed spec fn wf(&self) -> bool {
        &&& self@.wf()
        &&& forall|i: int| 0 <= i < self.nodes@.len() ==> (#[trigger] self.nodes@[i]).body.inv()
    }

    /// The invariant of the tree holds of its model.
    pub proof fn lemma_wf(&self)
        requires
            self.wf(),
        ensures
            self@.wf(),
    {
    }

    /// A tree that holds an empty root directory and nothing else.
    pub fn new() -> (tree: Tree)
        ensures
            tree.wf(),
            tree@ == empty_tree(),
            tree@.nodes.len() == 1,
            tree@.is_dir(ROOT),
            tree@.has_no_entries(ROOT),
    {
        let mut nodes: Vec<Node> = Vec::new();
        nodes.push(Node { parent: None, body: NodeBody::Directory(Vec::new()) });
        let tree = Tree { nodes };
        proof {
            assert(tree@.nodes[0] == tree.nodes@[0].view());
            assert(tree@.children(ROOT) =~= Map::empty());
            assert(tree@.nodes =~= empty_tree().nodes);
        }
        tree
    }

    /// The root directory.
    pub fn root(&self) -> (id: NodeId)
        ensures
            id == ROOT,
    {
        ROOT
    }

    /// Whether `id` identifies a node of this tree.
    pub fn contains(&self, id: NodeId) -> (b: bool)
        ensures
            b == self@.contains(id),
    {
        id < self.nodes.len()
    }

    /// The parent of node `id`: the directory it was created in, or `None`
    /// for the root.
    pub fn parent(&self, id: NodeId) -> (parent: Option<NodeId>)
        requires
            self.wf(),
            self@.contains(id),
        ensures
            parent == self@.parent(id),
            parent matches Some(p) ==> self@.contains(p) && self@.is_dir(p),
            parent is None <==> id == ROOT,
    {
        self.nodes[id].parent
    }

    /// The kind of node `id`.
    pub fn kind(&self, id: NodeId) -> (kind: NodeKind)
        requires
            self@.contains(id),
        ensures
            kind == self@.kind(id),
    {
        match &self.nodes[id].body {
            NodeBody::Directory(_) => NodeKind::Directory,
            NodeBody::File(_) => NodeKind::File,
            NodeBody::Device(_) => NodeKind::Device,
        }
    }

    /// The attributes of node `id`.
    pub fn get_attr(&self, id: NodeId) -> (attr: NodeAttr)
        requires
            self.wf(),
            self@.contains(id),
        ensures
            attr == self@.attr(id),
    {
        match &self.nodes[id].body {
            NodeBody::Directory(_) => NodeAttr::new_dir(),
            NodeBody::File(file) => file.get_attr(),
            NodeBody::Device(dev) => dev.get_attr(),
        }
    }

    /// One step of path resolution.
    fn step(&self, cur: NodeId, chars: &Vec<char>, span: Span) -> (res: Result<NodeId, FsError>)
        requires
            self.wf(),
            self@.contains(cur),
            span.start <= span.end <= chars@.len(),
        ensures
            res == self@.step(cur, span.of(chars@)),
            res matches Ok(next) ==> self@.contains(next),
    {
        if is_dot(chars, span) {
            return Ok(cur);
        }
        if is_dot_dot(chars, span) {
            return match self.nodes[cur].parent {
                Some(p) => Ok(p),
                None => Ok(cur),
            };
        }
        match &self.nodes[cur].body {
            NodeBody::Directory(entries) => {
                match find_entry(entries, chars, span) {
                    Some(i) => {
                        proof {
                            lemma_entries_map_at(entries@, i as int);
                        }
                        Ok(entries[i].node)
                    },
                    None => Err(FsError::NotFound),
                }
            },
            _ => Err(FsError::NotADirectory),
        }
    }

    /// Path resolution along the components `spans[from..to]`.
    fn walk(&self, start: NodeId, chars: &Vec<char>, spans: &Vec<Span>, from: usize, to: usize) -> (res:
        Result<NodeId, FsError>)
        requires
            self.wf(),
            self@.contains(start),
            from <= to <= spans@.len(),
            forall|i: int| 0 <= i < spans@.len() ==> (#[trigger] spans@[i]).is_component_of(chars@),
        ensures
            res == self@.walk(start, spans_of(chars@, spans@).subrange(from as int, to as int)),
            res matches Ok(node) ==> self@.contains(node),
    {
        let ghost names = spans_of(chars@, spans@);
        let mut cur = start;
        let mut k = from;
        while k < to
            invariant
                self.wf(),
                self@.contains(cur),
                from <= k <= to <= spans@.len(),
                names == spans_of(chars@, spans@),
                forall|i: int| 0 <= i < spans@.len() ==> (#[trigger] spans@[i]).is_component_of(chars@),
                self@.walk(start, names.subrange(from as int, to as int)) == self@.walk(
                    cur,
                    names.subrange(k as int, to as int),
                ),
            decreases to - k,
        {
            let ghost rest = names.subrange(k as int, to as int);
            proof {
                assert(rest[0] == spans@[k as int].of(chars@));
                assert(rest.drop_first() =~= names.subrange(k + 1, to as int));
            }
            match self.step(cur, chars, spans[k]) {
                Ok(next) => {
                    cur = next;
                },
                Err(e) => {
                    return Err(e);
                },
            }
            k += 1;
        }
        Ok(cur)
    }

    /// Resolve `path` from node `start`.
    ///
    /// A path that begins with the separator is resolved from the root.
    /// Empty components are skipped; `.` stays, `..` goes to the parent and
    /// stays at the root; any other name is looked up in the directory
    /// reached so far.
    pub fn resolve(&self, start: NodeId, path: &str) -> (res: Result<NodeId, FsError>)
        requires
            self.wf(),
            self@.contains(start),
        ensures
            res == self@.resolve(start, path@),
            res matches Ok(node) ==> self@.contains(node),
    {
        let chars = to_chars(path);
        let spans = parse_components(&chars);
        let base = if chars.len() > 0 && chars[0] == SEPARATOR { ROOT } else { start };
        proof {
            let names = spans_of(chars@, spans@);
            assert(names.subrange(0, spans@.len() as int) =~= names);
        }
        self.walk(base, &chars, &spans, 0, spans.len())
    }

    /// The directory operation `lookup`: resolve `path` from the directory
    /// `start`. From a node that is not a directory it fails.
    pub fn lookup(&self, start: NodeId, path: &str) -> (res: Result<NodeId, FsError>)
        requires
            self.wf(),
            self@.contains(start),
        ensures
            res == self@.lookup(start, path@),
            res matches Ok(node) ==> self@.contains(node),
    {
        match &self.nodes[start].body {
            NodeBody::Directory(_) => self.resolve(start, path),
            _ => Err(FsError::NotADirectory),
        }
    }

    /// Enter a new node with `body` in the directory `dir` under `name`.
    fn insert_node(&mut self, dir: NodeId, name: String, body: NodeBody) -> (id: NodeId)
        requires
            old(self).wf(),
            old(self)@.contains(dir),
            old(self)@.insert_outcome(dir, name@) is Ok,
            is_entry_name(name@),
            body.inv(),
            body matches NodeBody::Directory(entries) ==> entries@.len() == 0,
        ensures
            final(self).wf(),
            final(self)@ == old(self)@.after_insert(dir, name@, body.view()),
            old(self)@.insert_outcome(dir, name@) == Ok::<NodeId, FsError>(id),
    {
        let id = self.nodes.len();
        let ghost before = *self;
        let ghost body_view = body.view();
        let ghost entry = DirEntry { name, node: id };
        match &mut self.nodes[dir].body {
            NodeBody::Directory(entries) => {
                entries.push(DirEntry { name, node: id });
            },
            _ => {},
        }
        self.nodes.push(Node { parent: Some(dir), body });
        proof {
            let expected = before@.after_insert(dir, entry.name@, body_view);
            let old_entries = before.nodes@[dir as int].body->Directory_0@;
            lemma_entries_map_push(old_entries, entry);
            assert(self.nodes@.len() <= usize::MAX) by {
                assert(self.nodes.len() == self.nodes@.len());
            }
            assert(self@.nodes.len() == expected.nodes.len());
            assert forall|i: int| 0 <= i < expected.nodes.len() implies self@.nodes[i]
                == expected.nodes[i] by {
                if i == id {
                    assert(self.nodes@[i].view() == expected.nodes[i]);
                } else if i == dir {
                    assert(self.nodes@[i].body->Directory_0@ == old_entries.push(entry));
                    assert(self.nodes@[i].view() == expected.nodes[i]);
                } else {
                    assert(self.nodes@[i] == before.nodes@[i]);
                    assert(before@.nodes[i] == before.nodes@[i].view());
                }
            }
            assert(self@.nodes =~= expected.nodes);
            match body_view {
                BodyView::Directory(m) => {
                    assert(m =~= Map::<Seq<char>, NodeId>::empty());
                },
                _ => {},
            }
            lemma_after_insert_wf(before@, dir, entry.name@, body_view);
            assert forall|i: int| 0 <= i < self.nodes@.len() implies (#[trigger] self.nodes@[i]).body.inv() by {
                if i != id && i != dir {
                    assert(self.nodes@[i] == before.nodes@[i]);
                }
            }
        }
        id
    }

    /// The directory and the name that `path` designates from `start`.
    fn locate(
        &self,
        start: NodeId,
        chars: &Vec<char>,
        spans: &Vec<Span>,
        no_name: FsError,
    ) -> (res: Result<(NodeId, Span), FsError>)
        requires
            self.wf(),
            self@.contains(start),
            spans_of(chars@, spans@) == components(chars@),
            forall|i: int| 0 <= i < spans@.len() ==> (#[trigger] spans@[i]).is_component_of(chars@),
        ensures
            match self@.locate(start, chars@, no_name) {
                Ok((dir, name)) => {
                    &&& res matches Ok((d, span))
                    &&& d == dir
                    &&& self@.contains(d)
                    &&& span.of(chars@) == name
                    &&& span.is_component_of(chars@)
                    &&& is_entry_name(name)
                },
                Err(e) => res == Err::<(NodeId, Span), FsError>(e),
            },
    {
        match &self.nodes[start].body {
            NodeBody::Directory(_) => {},
            _ => {
                return Err(FsError::NotADirectory);
            },
        }
        let count = spans.len();
        if count == 0 {
            return Err(no_name);
        }
        let base = if chars.len() > 0 && chars[0] == SEPARATOR { ROOT } else { start };
        let last = spans[count - 1];
        proof {
            let names = spans_of(chars@, spans@);
            assert(names.drop_last() =~= names.subrange(0, count - 1));
            assert(names.last() == last.of(chars@));
        }
        match self.walk(base, chars, spans, 0, count - 1) {
            Err(e) => Err(e),
            Ok(dir) => {
                if is_dot(chars, last) || is_dot_dot(chars, last) {
                    Err(no_name)
                } else {
                    proof {
                        let name = last.of(chars@);
                        if name.contains(SEPARATOR) {
                            let j = choose|j: int| 0 <= j < name.len() && name[j] == SEPARATOR;
                            assert(chars@[last.start + j] == SEPARATOR);
                        }
                    }
                    Ok((dir, last))
                }
            },
        }
    }

    /// Create a node of `kind` at `path`, seen from the directory `start`.
    ///
    /// All components of `path` but the last are resolved as in a lookup;
    /// the last is the name of the new entry. The new node is an empty
    /// directory, an empty file or a null device.
    ///
    /// Fails with `NotADirectory` if `start`, or the node that the leading
    /// components lead to, is not a directory; with the error of the
    /// resolution if that fails; and with `AlreadyExists` if the name is
    /// present, or if the path has no last name to create (it is empty, or
    /// ends in `.` or `..`). A failed call changes nothing.
    pub fn create(&mut self, start: NodeId, path: &str, kind: NodeKind) -> (res: Result<NodeId, FsError>)
        requires
            old(self).wf(),
            old(self)@.contains(start),
        ensures
            final(self).wf(),
            res == old(self)@.create_outcome(start, path@),
            final(self)@ == old(self)@.after_create(start, path@, kind),
            old(self)@.persists_in(final(self)@),
            res matches Ok(node) ==> final(self)@.contains(node),
    {
        proof {
            law_nodes_persist(self@, start, path@, kind, start, 0, Seq::empty(), 0, 0);
        }
        let chars = to_chars(path);
        let spans = parse_components(&chars);
        let (dir, span) = match self.locate(start, &chars, &spans, FsError::AlreadyExists) {
            Ok(found) => found,
            Err(e) => {
                return Err(e);
            },
        };
        match &self.nodes[dir].body {
            NodeBody::Directory(entries) => {
                match find_entry(entries, &chars, span) {
                    Some(i) => {
                        proof {
                            lemma_entries_map_at(entries@, i as int);
                        }
                        return Err(FsError::AlreadyExists);
                    },
                    None => {},
                }
            },
            _ => {
                return Err(FsError::NotADirectory);
            },
        }
        let name = path.substring_char(span.start, span.end).to_owned();
        let body = match kind {
            NodeKind::Directory => NodeBody::Directory(Vec::new()),
            NodeKind::File => NodeBody::File(FileNode::new()),
            NodeKind::Device => NodeBody::Device(Device::Null(NullDev)),
        };
        proof {
            assert(body.view() == empty_body(kind)) by {
                lemma_entries_map_empty(Seq::<DirEntry>::empty());
                if kind == NodeKind::Directory {
                    assert(entries_map(Seq::<DirEntry>::empty()) =~= Map::<Seq<char>, NodeId>::empty());
                }
            }
        }
        let id = self.insert_node(dir, name, body);
        Ok(id)
    }

    /// Remove the entry at `path`, seen from the directory `start`.
    ///
    /// All components of `path` but the last are resolved as in a lookup;
    /// the last is the name of the entry to remove. The node it led to is
    /// not destroyed: it keeps its identity and its contents, and is no
    /// longer reachable by any path.
    ///
    /// Fails with `NotADirectory` if `start`, or the node that the leading
    /// components lead to, is not a directory; with the error of the
    /// resolution if that fails; with `InvalidInput` if the path has no last
    /// name to remove (it is empty, or ends in `.` or `..`); with `NotFound`
    /// if the name is absent; and with `DirectoryNotEmpty` if the entry is a
    /// directory that has entries. A failed call changes nothing.
    pub fn remove(&mut self, start: NodeId, path: &str) -> (res: Result<(), FsError>)
        requires
            old(self).wf(),
            old(self)@.contains(start),
        ensures
            final(self).wf(),
            res == old(self)@.remove_outcome(start, path@),
            final(self)@ == old(self)@.after_remove(start, path@),
            old(self)@.persists_in(final(self)@),
    {
        proof {
            law_nodes_persist(self@, start, path@, NodeKind::File, start, 0, Seq::empty(), 0, 0);
        }
        let chars = to_chars(path);
        let spans = parse_components(&chars);
        let (dir, span) = match self.locate(start, &chars, &spans, FsError::InvalidInput) {
            Ok(found) => found,
            Err(e) => {
                return Err(e);
            },
        };
        let found = match &self.nodes[dir].body {
            NodeBody::Directory(entries) => {
                match find_entry(entries, &chars, span) {
                    Some(i) => {
                        proof {
                            lemma_entries_map_at(entries@, i as int);
                        }
                        (i, entries[i].node)
                    },
                    None => {
                        return Err(FsError::NotFound);
                    },
                }
            },
            _ => {
                return Err(FsError::NotADirectory);
            },
        };
        let index = found.0;
        let child = found.1;
        match &self.nodes[child].body {
            NodeBody::Directory(entries) => {
                proof {
                    lemma_entries_map_empty(entries@);
                    assert(self@.children(child) == entries_map(entries@));
                }
                if entries.len() > 0 {
                    return Err(FsError::DirectoryNotEmpty);
                }
            },
            _ => {},
        }
        let ghost before = *self;
        let ghost name = span.of(chars@);
        match &mut self.nodes[dir].body {
            NodeBody::Directory(entries) => {
                entries.remove(index);
            },
            _ => {},
        }
        proof {
            let expected = before@.after_unlink(dir, name);
            let old_entries = before.nodes@[dir as int].body->Directory_0@;
            lemma_entries_map_remove(old_entries, index as int);
            assert forall|i: int| 0 <= i < expected.nodes.len() implies self@.nodes[i]
                == expected.nodes[i] by {
                if i == dir {
                    assert(self.nodes@[i].body->Directory_0@ == old_entries.remove(index as int));
                    assert(self.nodes@[i].view() == expected.nodes[i]);
                } else {
                    assert(self.nodes@[i] == before.nodes@[i]);
                    assert(before@.nodes[i] == before.nodes@[i].view());
                }
            }
            assert(self@.nodes =~= expected.nodes);
            lemma_after_unlink_wf(before@, dir, name);
            assert forall|i: int| 0 <= i < self.nodes@.len() implies (#[trigger] self.nodes@[i]).body.inv() by {
                if i != dir {
                    assert(self.nodes@[i] == before.nodes@[i]);
                }
            }
        }
        Ok(())
    }

    /// Read node `id` at `offset` into `buf`.
    ///
    /// A directory fails with `IsADirectory`. A file copies what it holds
    /// from `offset` on into the front of `buf`, as much as fits, and returns
    /// the count. The null device reads nothing, the zero device fills `buf`
    /// with zeros, and the pseudorandom device fills it with draws of its
    /// generator, whose state advances.
    pub fn read_at(&mut self, id: NodeId, offset: u64, buf: &mut [u8]) -> (res: Result<usize, FsError>)
        requires
            old(self).wf(),
            old(self)@.contains(id),
        ensures
            final(self).wf(),
            old(self)@.read_outcome(id, offset, old(buf)@, final(buf)@, res),
            final(self)@ == old(self)@.after_read(id, old(buf)@.len()),
            old(self)@.persists_in(final(self)@),
    {
        let ghost before = *self;
        proof {
            law_nodes_persist(self@, id, Seq::empty(), NodeKind::File, id, 0, Seq::empty(), 0, buf@.len());
        }
        let res = match &mut self.nodes[id].body {
            NodeBody::Directory(_) => Err(FsError::IsADirectory),
            NodeBody::File(file) => file.read_at(offset, buf),
            NodeBody::Device(dev) => dev.read_at(offset, buf),
        };
        proof {
            lemma_body_replaced(before, *self, id);
        }
        res
    }

    /// Write `data` to node `id` at `offset`.
    ///
    /// A directory fails with `IsADirectory`. A file takes the data at
    /// `offset`, growing if it must and filling the gap between its old end
    /// and `offset` with zeros. A device discards the data. Both return the
    /// length of `data`.
    pub fn write_at(&mut self, id: NodeId, offset: u64, data: &[u8]) -> (res: Result<usize, FsError>)
        requires
            old(self).wf(),
            old(self)@.contains(id),
            old(self)@.kind(id) == NodeKind::File ==> offset + data@.len() <= usize::MAX,
        ensures
            final(self).wf(),
            res == old(self)@.write_outcome(id, data@.len()),
            final(self)@ == old(self)@.after_write(id, offset, data@),
            old(self)@.persists_in(final(self)@),
    {
        let ghost before = *self;
        proof {
            law_nodes_persist(self@, id, Seq::empty(), NodeKind::File, id, offset, data@, 0, 0);
            assert(before@.nodes[id as int] == before.nodes@[id as int].view());
        }
        let res = match &mut self.nodes[id].body {
            NodeBody::Directory(_) => Err(FsError::IsADirectory),
            NodeBody::File(file) => file.write_at(offset, data),
            NodeBody::Device(dev) => dev.write_at(offset, data),
        };
        proof {
            lemma_body_replaced(before, *self, id);
        }
        res
    }

    /// Set the size of node `id` to `size`.
    ///
    /// A directory fails with `IsADirectory`. A file drops the bytes beyond
    /// `size`, or grows to it with zeros. A device does nothing.
    pub fn truncate(&mut self, id: NodeId, size: u64) -> (res: Result<(), FsError>)
        requires
            old(self).wf(),
            old(self)@.contains(id),
            old(self)@.kind(id) == NodeKind::File ==> size <= usize::MAX,
        ensures
            final(self).wf(),
            res == old(self)@.truncate_outcome(id),
            final(self)@ == old(self)@.after_truncate(id, size),
            old(self)@.persists_in(final(self)@),
    {
        let ghost before = *self;
        proof {
            law_nodes_persist(self@, id, Seq::empty(), NodeKind::File, id, 0, Seq::empty(), size, 0);
            assert(before@.nodes[id as int] == before.nodes@[id as int].view());
        }
        let res = match &mut self.nodes[id].body {
            NodeBody::Directory(_) => Err(FsError::IsADirectory),
            NodeBody::File(file) => file.truncate(size),
            NodeBody::Device(dev) => dev.truncate(size),
        };
        proof {
            lemma_body_replaced(before, *self, id);
        }
        res
    }

    /// Enter a node with `body` in the directory `dir` under `name`.
    fn add_node(&mut self, dir: NodeId, name: &str, body: NodeBody) -> (res: Result<NodeId, FsError>)
        requires
            old(self).wf(),
            old(self)@.contains(dir),
            body.inv(),
            body matches NodeBody::Directory(entries) ==> entries@.len() == 0,
        ensures
            final(self).wf(),
            res == old(self)@.add_outcome(dir, name@),
            final(self)@ == old(self)@.after_add(dir, name@, body.view()),
            old(self)@.persists_in(final(self)@),
            res matches Ok(node) ==> final(self)@.contains(node),
    {
        proof {
            if self@.is_dir(dir) {
                lemma_after_add_persists(self@, dir, name@, body.view());
            }
        }
        let chars = to_chars(name);
        let whole = Span { start: 0, end: chars.len() };
        proof {
            assert(whole.of(chars@) =~= chars@);
        }
        match &self.nodes[dir].body {
            NodeBody::Directory(entries) => {
                if !check_entry_name(&chars) {
                    return Err(FsError::InvalidInput);
                }
                match find_entry(entries, &chars, whole) {
                    Some(i) => {
                        proof {
                            lemma_entries_map_at(entries@, i as int);
                        }
                        return Err(FsError::AlreadyExists);
                    },
                    None => {},
                }
            },
            _ => {
                return Err(FsError::NotADirectory);
            },
        }
        let id = self.insert_node(dir, name.to_owned(), body);
        Ok(id)
    }

    /// Enter the device `dev` in the directory `dir` under `name`.
    ///
    /// Fails with `NotADirectory` if `dir` is not a directory, with
    /// `InvalidInput` if `name` is not a proper entry name (it is empty,
    /// holds a separator, or is `.` or `..`), and with `AlreadyExists` if the
    /// name is present. A failed call changes nothing.
    pub fn add_device(&mut self, dir: NodeId, name: &str, dev: Device) -> (res: Result<NodeId, FsError>)
        requires
            old(self).wf(),
            old(self)@.contains(dir),
        ensures
            final(self).wf(),
            res == old(self)@.add_outcome(dir, name@),
            final(self)@ == old(self)@.after_add(dir, name@, BodyView::Device(dev@)),
            old(self)@.persists_in(final(self)@),
            res matches Ok(node) ==> final(self)@.contains(node),
    {
        self.add_node(dir, name, NodeBody::Device(dev))
    }

    /// Enter a new empty directory in the directory `dir` under `name`.
    ///
    /// Fails as `add_device` does.
    pub fn add_dir(&mut self, dir: NodeId, name: &str) -> (res: Result<NodeId, FsError>)
        requires
            old(self).wf(),
            old(self)@.contains(dir),
        ensures
            final(self).wf(),
            res == old(self)@.add_outcome(dir, name@),
            final(self)@ == old(self)@.after_add(dir, name@, empty_body(NodeKind::Directory)),
            old(self)@.persists_in(final(self)@),
            res matches Ok(node) ==> final(self)@.contains(node),
    {
        let body = NodeBody::Directory(Vec::new());
        proof {
            assert(entries_map(Seq::<DirEntry>::empty()) =~= Map::<Seq<char>, NodeId>::empty());
        }
        self.add_node(dir, name, body)
    }

    /// The names of the entries of the directory `dir`, each once, in no
    /// particular order. Fails with `NotADirectory` for any other node.
    pub fn get_entries(&self, dir: NodeId) -> (res: Result<Vec<String>, FsError>)
        requires
            self.wf(),
            self@.contains(dir),
        ensures
            match res {
                Ok(names) => {
                    &&& self@.is_dir(dir)
                    &&& name_views(names@).no_duplicates()
                    &&& name_views(names@).to_set() == self@.children(dir).dom()
                },
                Err(e) => !self@.is_dir(dir) && e == FsError::NotADirectory,
            },
    {
        match &self.nodes[dir].body {
            NodeBody::Directory(entries) => {
                let mut names: Vec<String> = Vec::new();
                let mut i: usize = 0;
                while i < entries.len()
                    invariant
                        i <= entries@.len(),
                        names@.len() == i,
                        forall|j: int| 0 <= j < i ==> names@[j]@ == entries@[j].name@,
                    decreases entries@.len() - i,
                {
                    names.push(entries[i].name.clone());
                    i += 1;
                }
                proof {
                    let views = name_views(names@);
                    assert forall|a: int, b: int| 0 <= a < views.len() && 0 <= b < views.len() && a
                        != b implies views[a] != views[b] by {
                        if a < b {
                            assert(entries@[a].name@ != entries@[b].name@);
                        } else {
                            assert(entries@[b].name@ != entries@[a].name@);
                        }
                    }
                    assert forall|name: Seq<char>| views.to_set().contains(name)
                        <==> self@.children(dir).dom().contains(name) by {
                        if views.to_set().contains(name) {
                            let j = choose|j: int| 0 <= j < views.len() && views[j] == name;
                            assert(entries@[j].name@ == name);
                        }
                        if self@.children(dir).dom().contains(name) {
                            let j = choose|j: int| 0 <= j < entries@.len() && entries@[j].name@ == name;
                            assert(views[j] == name);
                        }
                    }
                    assert(views.to_set() =~= self@.children(dir).dom());
                }
                Ok(names)
            },
            _ => Err(FsError::NotADirectory),
        }
    }

}

} // verus!
