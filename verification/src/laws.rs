//! Laws of the filesystem: what holds of path resolution, of the tree and
//! of file contents, whatever the inputs.

use vstd::prelude::*;
use crate::attr::NodeKind;
use crate::device::zeros;
use crate::error::FsError;
use crate::file::{read_len, read_result, truncate_result, write_result};
use crate::model::{
    empty_body, lemma_after_add_persists, lemma_after_insert_wf, lemma_after_unlink_wf,
    lemma_locate_contains, lemma_locate_name, lemma_walk_contains, lemma_with_body_wf, BodyView,
    NodeId, TreeView, ROOT,
};
use crate::path::{
    components, dot, dot_dot, is_absolute, is_entry_name, join, lemma_components_join,
    lemma_components_name, SEPARATOR,
};

verus! {

/// Walking along `xs` and then along `ys` is walking along both in a row;
/// a failure along `xs` is the failure of the whole walk.
pub proof fn lemma_walk_concat(tree: TreeView, cur: NodeId, xs: Seq<Seq<char>>, ys: Seq<Seq<char>>)
    ensures
        tree.walk(cur, xs + ys) == match tree.walk(cur, xs) {
            Ok(node) => tree.walk(node, ys),
            Err(e) => Err(e),
        },
    decreases xs.len(),
{
    if xs.len() == 0 {
        assert(xs + ys =~= ys);
    } else {
        assert((xs + ys)[0] == xs[0]);
        assert((xs + ys).drop_first() =~= xs.drop_first() + ys);
        match tree.step(cur, xs[0]) {
            Ok(next) => {
                lemma_walk_concat(tree, next, xs.drop_first(), ys);
            },
            Err(_) => {},
        }
    }
}

/// Whether a path of the form `a/...` is absolute depends on `a` alone.
proof fn lemma_join_absolute(a: Seq<char>, b: Seq<char>, c: Seq<char>)
    ensures
        is_absolute(join(a, b)) == is_absolute(join(a, c)),
{
    if a.len() > 0 {
        assert(join(a, b)[0] == a[0]);
        assert(join(a, c)[0] == a[0]);
    } else {
        assert(join(a, b)[0] == join(a, c)[0]);
    }
}

/// A repeated separator changes nothing: `a//b` resolves as `a/b` does.
pub proof fn law_resolve_repeated_separator(
    tree: TreeView,
    start: NodeId,
    a: Seq<char>,
    b: Seq<char>,
)
    ensures
        tree.resolve(start, join(a, join(Seq::empty(), b))) == tree.resolve(start, join(a, b)),
{
    let empty = Seq::<char>::empty();
    lemma_join_absolute(a, join(empty, b), b);
    lemma_components_join(a, join(empty, b));
    lemma_components_join(empty, b);
    lemma_components_join(a, b);
    assert(!empty.contains(SEPARATOR));
    lemma_components_name(empty);
    assert(components(empty) + components(b) =~= components(b));
}

/// A separator at the end of a path that is not empty changes nothing:
/// `a/` resolves as `a` does.
pub proof fn law_resolve_trailing_separator(tree: TreeView, start: NodeId, a: Seq<char>)
    requires
        a.len() > 0,
    ensures
        tree.resolve(start, join(a, Seq::empty())) == tree.resolve(start, a),
{
    let empty = Seq::<char>::empty();
    assert(join(a, empty)[0] == a[0]);
    lemma_components_join(a, empty);
    assert(!empty.contains(SEPARATOR));
    lemma_components_name(empty);
    assert(components(a) + components(empty) =~= components(a));
}

/// A `.` component changes nothing: `a/./b` resolves as `a/b` does.
pub proof fn law_resolve_dot(tree: TreeView, start: NodeId, a: Seq<char>, b: Seq<char>)
    ensures
        tree.resolve(start, join(a, join(dot(), b))) == tree.resolve(start, join(a, b)),
{
    lemma_join_absolute(a, join(dot(), b), b);
    lemma_components_join(a, join(dot(), b));
    lemma_components_join(dot(), b);
    lemma_components_join(a, b);
    assert(!dot().contains(SEPARATOR));
    lemma_components_name(dot());
    let base = tree.base(start, join(a, b));
    lemma_walk_concat(tree, base, components(a), seq![dot()] + components(b));
    lemma_walk_concat(tree, base, components(a), components(b));
    match tree.walk(base, components(a)) {
        Ok(node) => {
            let rest = seq![dot()] + components(b);
            assert(rest[0] == dot());
            assert(rest.drop_first() =~= components(b));
        },
        Err(_) => {},
    }
}

/// A `.` component at the front of a relative path changes nothing: `./b`
/// resolves as `b` does.
pub proof fn law_resolve_leading_dot(tree: TreeView, start: NodeId, b: Seq<char>)
    requires
        !is_absolute(b),
    ensures
        tree.resolve(start, join(dot(), b)) == tree.resolve(start, b),
{
    assert(join(dot(), b)[0] == '.');
    lemma_components_join(dot(), b);
    assert(!dot().contains(SEPARATOR));
    lemma_components_name(dot());
    let rest = seq![dot()] + components(b);
    assert(rest[0] == dot());
    assert(rest.drop_first() =~= components(b));
}

/// Going into an entry and back out changes nothing: where `a/` leads to a
/// directory that has an entry `x`, `a/x/../b` resolves as `a/b` does.
pub proof fn law_resolve_entry_dot_dot(
    tree: TreeView,
    start: NodeId,
    a: Seq<char>,
    x: Seq<char>,
    b: Seq<char>,
)
    requires
        tree.wf(),
        tree.contains(start),
        tree.resolve(start, join(a, Seq::empty())) matches Ok(dir) && tree.children(
            dir,
        ).contains_key(x),
    ensures
        tree.resolve(start, join(a, join(x, join(dot_dot(), b)))) == tree.resolve(
            start,
            join(a, b),
        ),
{
    let empty = Seq::<char>::empty();
    let tail = join(x, join(dot_dot(), b));
    lemma_join_absolute(a, tail, b);
    lemma_join_absolute(a, empty, b);
    lemma_components_join(a, empty);
    assert(!empty.contains(SEPARATOR));
    lemma_components_name(empty);
    assert(components(a) + components(empty) =~= components(a));
    let base = tree.base(start, join(a, b));
    let dir = tree.walk(base, components(a))->Ok_0;
    lemma_walk_contains(tree, base, components(a));
    assert(is_entry_name(x));
    lemma_components_join(a, tail);
    lemma_components_join(x, join(dot_dot(), b));
    lemma_components_join(dot_dot(), b);
    lemma_components_join(a, b);
    lemma_components_name(x);
    assert(!dot_dot().contains(SEPARATOR));
    lemma_components_name(dot_dot());
    let rest = seq![x] + (seq![dot_dot()] + components(b));
    lemma_walk_concat(tree, base, components(a), rest);
    lemma_walk_concat(tree, base, components(a), components(b));
    let child = tree.children(dir)[x];
    assert(rest[0] == x);
    assert(rest.drop_first() =~= seq![dot_dot()] + components(b));
    assert(tree.step(dir, x) == Ok::<NodeId, FsError>(child));
    assert(rest.drop_first()[0] == dot_dot());
    assert(rest.drop_first().drop_first() =~= components(b));
    assert(tree.parent(child) == Some(dir));
    assert(dot_dot().len() != dot().len());
    assert(tree.step(child, dot_dot()) == Ok::<NodeId, FsError>(dir));
    assert(tree.walk(child, rest.drop_first()) == tree.walk(dir, components(b)));
    assert(tree.walk(dir, rest) == tree.walk(dir, components(b)));
    assert(components(tail) == rest);
}

/// Going into an entry of the start and back out changes nothing: where
/// `start` has an entry `x` and `b` is a relative path, `x/../b` resolves
/// as `b` does.
pub proof fn law_resolve_leading_entry_dot_dot(
    tree: TreeView,
    start: NodeId,
    x: Seq<char>,
    b: Seq<char>,
)
    requires
        tree.wf(),
        tree.contains(start),
        tree.children(start).contains_key(x),
        !is_absolute(b),
    ensures
        tree.resolve(start, join(x, join(dot_dot(), b))) == tree.resolve(start, b),
{
    assert(is_entry_name(x));
    assert(join(x, join(dot_dot(), b))[0] == x[0]);
    assert(x.contains(x[0]));
    lemma_components_join(x, join(dot_dot(), b));
    lemma_components_join(dot_dot(), b);
    lemma_components_name(x);
    assert(!dot_dot().contains(SEPARATOR));
    lemma_components_name(dot_dot());
    let rest = seq![x] + (seq![dot_dot()] + components(b));
    let child = tree.children(start)[x];
    assert(rest[0] == x);
    assert(rest.drop_first() =~= seq![dot_dot()] + components(b));
    assert(tree.step(start, x) == Ok::<NodeId, FsError>(child));
    assert(rest.drop_first()[0] == dot_dot());
    assert(rest.drop_first().drop_first() =~= components(b));
    assert(dot_dot().len() != dot().len());
    assert(tree.step(child, dot_dot()) == Ok::<NodeId, FsError>(start));
    assert(tree.walk(child, rest.drop_first()) == tree.walk(start, components(b)));
    assert(tree.walk(start, rest) == tree.walk(start, components(b)));
}

/// Every operation keeps the invariant of the filesystem: it holds after a
/// creation, a removal, a write, a truncation and a read, whether they
/// succeed or fail.
pub proof fn law_invariant_kept(
    tree: TreeView,
    start: NodeId,
    path: Seq<char>,
    kind: NodeKind,
    id: NodeId,
    offset: u64,
    data: Seq<u8>,
    size: u64,
    len: nat,
)
    requires
        tree.wf(),
        tree.nodes.len() < usize::MAX,
        tree.contains(start),
        tree.contains(id),
    ensures
        tree.after_create(start, path, kind).wf(),
        tree.after_remove(start, path).wf(),
        tree.after_write(id, offset, data).wf(),
        tree.after_truncate(id, size).wf(),
        tree.after_read(id, len).wf(),
{
    match tree.locate(start, path, FsError::AlreadyExists) {
        Ok((dir, name)) => {
            lemma_locate_contains(tree, start, path, FsError::AlreadyExists);
            lemma_locate_name(tree, start, path, FsError::AlreadyExists);
            if tree.insert_outcome(dir, name) is Ok {
                lemma_after_insert_wf(tree, dir, name, empty_body(kind));
            }
        },
        Err(_) => {},
    }
    match tree.locate(start, path, FsError::InvalidInput) {
        Ok((dir, name)) => {
            lemma_locate_contains(tree, start, path, FsError::InvalidInput);
            if tree.unlink_outcome(dir, name) is Ok {
                lemma_after_unlink_wf(tree, dir, name);
            }
        },
        Err(_) => {},
    }
    match tree.body(id) {
        BodyView::File(content) => {
            lemma_with_body_wf(tree, id, BodyView::File(write_result(content, offset, data)));
            lemma_with_body_wf(tree, id, BodyView::File(truncate_result(content, size)));
        },
        BodyView::Device(dev) => {
            lemma_with_body_wf(tree, id, BodyView::Device(dev.after_read(len)));
        },
        BodyView::Directory(_) => {},
    }
}

/// No operation drops a node, changes the kind of one or gives one another
/// parent: after a creation, a removal, a write, a truncation or a read,
/// every node is still there as what it was. So an identity that was handed
/// out stays valid, whether or not a path still leads to the node.
pub proof fn law_nodes_persist(
    tree: TreeView,
    start: NodeId,
    path: Seq<char>,
    kind: NodeKind,
    id: NodeId,
    offset: u64,
    data: Seq<u8>,
    size: u64,
    len: nat,
)
    requires
        tree.wf(),
        tree.contains(start),
        tree.contains(id),
    ensures
        tree.persists_in(tree.after_create(start, path, kind)),
        tree.persists_in(tree.after_remove(start, path)),
        tree.persists_in(tree.after_write(id, offset, data)),
        tree.persists_in(tree.after_truncate(id, size)),
        tree.persists_in(tree.after_read(id, len)),
{
    match tree.locate(start, path, FsError::AlreadyExists) {
        Ok((dir, name)) => {
            lemma_locate_contains(tree, start, path, FsError::AlreadyExists);
            if tree.insert_outcome(dir, name) is Ok {
                lemma_after_add_persists(tree, dir, name, empty_body(kind));
            }
        },
        Err(_) => {},
    }
    match tree.locate(start, path, FsError::InvalidInput) {
        Ok((dir, name)) => {
            lemma_locate_contains(tree, start, path, FsError::InvalidInput);
            if tree.unlink_outcome(dir, name) is Ok {
                let after = tree.after_unlink(dir, name);
                assert forall|n: NodeId| #[trigger] tree.contains(n) implies after.contains(n)
                    && after.kind(n) == tree.kind(n) && after.parent(n) == tree.parent(n) by {}
            }
        },
        Err(_) => {},
    }
    let written = tree.after_write(id, offset, data);
    assert forall|n: NodeId| #[trigger] tree.contains(n) implies written.contains(n)
        && written.kind(n) == tree.kind(n) && written.parent(n) == tree.parent(n) by {}
    let truncated = tree.after_truncate(id, size);
    assert forall|n: NodeId| #[trigger] tree.contains(n) implies truncated.contains(n)
        && truncated.kind(n) == tree.kind(n) && truncated.parent(n) == tree.parent(n) by {}
    let read = tree.after_read(id, len);
    assert forall|n: NodeId| #[trigger] tree.contains(n) implies read.contains(n) && read.kind(n)
        == tree.kind(n) && read.parent(n) == tree.parent(n) by {}
}

/// The tree is consistent: the root has no parent, and every entry of a
/// directory leads to a node whose parent is that directory.
pub proof fn law_tree_consistency(tree: TreeView, dir: NodeId, name: Seq<char>)
    requires
        tree.wf(),
        tree.contains(dir),
        tree.children(dir).contains_key(name),
    ensures
        tree.parent(ROOT) is None,
        tree.contains(tree.children(dir)[name]),
        tree.parent(tree.children(dir)[name]) == Some(dir),
        tree.step(tree.children(dir)[name], dot_dot()) == Ok::<NodeId, FsError>(dir),
{
    assert(dot_dot().len() != dot().len());
}

/// What was written is what is read back: after `data` was written at
/// `offset`, a read of as many bytes at `offset` yields `data`.
pub proof fn law_write_then_read(content: Seq<u8>, offset: u64, data: Seq<u8>, buf: Seq<u8>)
    requires
        buf.len() == data.len(),
    ensures
        read_len(write_result(content, offset, data).len(), offset, buf.len()) == data.len(),
        read_result(write_result(content, offset, data), offset, buf) == data,
{
    assert(read_result(write_result(content, offset, data), offset, buf) =~= data);
}

/// A write beyond the end fills the gap with zeros: after a write at an
/// `offset` beyond the old size, the bytes from the old size up to `offset`
/// are zero, and a read of that range yields zeros.
pub proof fn law_sparse_write_zero_fill(content: Seq<u8>, offset: u64, data: Seq<u8>, buf: Seq<u8>)
    requires
        offset > content.len(),
        buf.len() == offset - content.len(),
    ensures
        forall|i: int| content.len() <= i < offset ==> write_result(content, offset, data)[i] == 0,
        read_len(
            write_result(content, offset, data).len(),
            content.len() as u64,
            buf.len(),
        ) == buf.len(),
        read_result(write_result(content, offset, data), content.len() as u64, buf) == zeros(
            buf.len(),
        ),
{
    assert(read_result(write_result(content, offset, data), content.len() as u64, buf) =~= zeros(
        buf.len(),
    ));
}

/// Writing leaves the bytes outside the written range as they were.
pub proof fn law_write_keeps_the_rest(content: Seq<u8>, offset: u64, data: Seq<u8>)
    ensures
        forall|i: int|
            0 <= i < content.len() && !(offset <= i < offset + data.len()) ==> write_result(
                content,
                offset,
                data,
            )[i] == content[i],
{
}

/// After a truncation to `size`, a read of `size` bytes from the start
/// yields the first `size` bytes of the old content where it had that many,
/// and else the old content followed by zeros.
pub proof fn law_truncate_then_read(content: Seq<u8>, size: u64, buf: Seq<u8>)
    requires
        buf.len() == size,
    ensures
        read_len(truncate_result(content, size).len(), 0, buf.len()) == size,
        read_result(truncate_result(content, size), 0, buf) == if size <= content.len() {
            content.subrange(0, size as int)
        } else {
            content + zeros((size - content.len()) as nat)
        },
{
    let expected = if size <= content.len() {
        content.subrange(0, size as int)
    } else {
        content + zeros((size - content.len()) as nat)
    };
    assert(read_result(truncate_result(content, size), 0, buf) =~= expected);
}

} // verus!
