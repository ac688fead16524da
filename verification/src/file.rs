//! Regular files: a growable byte buffer with positional read and write.

use vstd::prelude::*;
use crate::attr::NodeAttr;
use crate::error::FsError;

verus! {

/// How many bytes a read of `buf_len` bytes at `offset` takes from a file
/// of `size` bytes.
pub open spec fn read_len(size: nat, offset: u64, buf_len: nat) -> nat {
    if offset >= size {
        0
    } else if buf_len <= size - offset {
        buf_len
    } else {
        (size - offset) as nat
    }
}

/// The caller's buffer after a read at `offset` from `content`: the bytes
/// read, then the rest of the buffer as it was.
pub open spec fn read_result(content: Seq<u8>, offset: u64, buf: Seq<u8>) -> Seq<u8> {
    let n = read_len(content.len(), offset, buf.len()) as int;
    Seq::new(buf.len(), |i: int| if i < n { content[offset + i] } else { buf[i] })
}

/// The content after writing `data` at `offset`: the file grows to hold the
/// data, and bytes between the old end and `offset` are zero.
pub open spec fn write_result(content: Seq<u8>, offset: u64, data: Seq<u8>) -> Seq<u8> {
    let end = offset + data.len();
    let new_len = if end > content.len() { end as nat } else { content.len() };
    Seq::new(
        new_len,
        |i: int|
            if offset <= i < end {
                data[i - offset]
            } else if i < content.len() {
                content[i]
            } else {
                0u8
            },
    )
}

/// The content after setting the size to `size`: trailing bytes dropped, or
/// zero bytes appended.
pub open spec fn truncate_result(content: Seq<u8>, size: u64) -> Seq<u8> {
    Seq::new(size as nat, |i: int| if i < content.len() { content[i] } else { 0u8 })
}

/// A regular file held in memory.
pub struct FileNode {
    content: Vec<u8>,
}

impl View for FileNode {
    type V = Seq<u8>;

    closed spec fn view(&self) -> Seq<u8> {
        self.content@
    }
}

impl FileNode {
    /// An empty file.
    pub fn new() -> (file: Self)
        ensures
            file@ == Seq::<u8>::empty(),
    {
        FileNode { content: Vec::new() }
    }

    /// The size of the file in bytes.
    pub fn size(&self) -> (size: u64)
        ensures
            size == self@.len(),
    {
        self.content.len() as u64
    }

    /// The attributes of the file: a regular file of its current size.
    pub fn get_attr(&self) -> (attr: NodeAttr)
        ensures
            attr == NodeAttr::spec_file(self@.len() as u64),
    {
        NodeAttr::new_file(self.content.len() as u64)
    }

    /// Copy bytes of the file, starting at `offset`, into the front of
    /// `buf`; return how many were copied. The rest of `buf` is untouched.
    pub fn read_at(&self, offset: u64, buf: &mut [u8]) -> (res: Result<usize, FsError>)
        ensures
            res is Ok,
            res->Ok_0 == read_len(self@.len(), offset, old(buf)@.len()),
            final(buf)@ == read_result(self@, offset, old(buf)@),
    {
        let size = self.content.len();
        if offset >= size as u64 {
            assert(buf@ =~= read_result(self@, offset, buf@));
            return Ok(0);
        }
        let start = offset as usize;
        let avail = size - start;
        let n = if buf.len() <= avail { buf.len() } else { avail };
        let mut i: usize = 0;
        while i < n
            invariant
                i <= n,
                n <= buf@.len(),
                size == self.content@.len(),
                start + n <= size,
                buf@.len() == old(buf)@.len(),
                forall|k: int| 0 <= k < i ==> buf@[k] == self.content@[start + k],
                forall|k: int| i <= k < buf@.len() ==> buf@[k] == old(buf)@[k],
            decreases n - i,
        {
            buf[i] = self.content[start + i];
            i += 1;
        }
        assert(buf@ =~= read_result(self@, offset, old(buf)@));
        Ok(n)
    }

    /// Write `data` at `offset`, growing the file if it ends before
    /// `offset + data.len()`; bytes between the old end and `offset` become
    /// zero. Returns the number of bytes written, which is all of them.
    pub fn write_at(&mut self, offset: u64, data: &[u8]) -> (res: Result<usize, FsError>)
        requires
            offset + data@.len() <= usize::MAX,
        ensures
            res is Ok,
            res->Ok_0 == data@.len(),
            final(self)@ == write_result(old(self)@, offset, data@),
    {
        let start = offset as usize;
        let end = start + data.len();
        if end > self.content.len() {
            self.content.resize(end, 0u8);
        }
        let ghost grown = self.content@;
        assert(grown.len() == write_result(old(self)@, offset, data@).len());
        assert forall|k: int| 0 <= k < grown.len() implies grown[k] == (if k < old(self)@.len() {
            old(self)@[k]
        } else {
            0u8
        }) by {
            if k < old(self)@.len() {
                assert(grown.subrange(0, old(self)@.len() as int)[k] == grown[k]);
            }
        }
        let mut i: usize = 0;
        while i < data.len()
            invariant
                i <= data@.len(),
                start == offset,
                end == start + data@.len(),
                self.content@.len() == grown.len(),
                end <= grown.len(),
                grown.len() == write_result(old(self)@, offset, data@).len(),
                forall|k: int|
                    0 <= k < grown.len() ==> grown[k] == (if k < old(self)@.len() {
                        old(self)@[k]
                    } else {
                        0u8
                    }),
                forall|k: int| 0 <= k < i ==> self.content@[start + k] == data@[k],
                forall|k: int|
                    0 <= k < grown.len() && !(start <= k < start + i) ==> self.content@[k]
                        == grown[k],
            decreases data@.len() - i,
        {
            self.content[start + i] = data[i];
            i += 1;
        }
        assert(self.content@ =~= write_result(old(self)@, offset, data@)) by {
            let expected = write_result(old(self)@, offset, data@);
            assert forall|k: int| 0 <= k < expected.len() implies self.content@[k]
                == expected[k] by {
                if start <= k < end {
                    assert(self.content@[start + (k - start)] == data@[k - start]);
                    assert(expected[k] == data@[k - start]);
                } else {
                    assert(self.content@[k] == grown[k]);
                    assert(expected[k] == grown[k]);
                }
            }
        }
        Ok(data.len())
    }

    /// Set the size of the file to `size`: drop the bytes beyond it, or
    /// append zero bytes up to it.
    pub fn truncate(&mut self, size: u64) -> (res: Result<(), FsError>)
        requires
            size <= usize::MAX,
        ensures
            res == Ok::<(), FsError>(()),
            final(self)@ == truncate_result(old(self)@, size),
    {
        let new_len = size as usize;
        if new_len < self.content.len() {
            self.content.truncate(new_len);
        } else {
            self.content.resize(new_len, 0u8);
            assert forall|k: int| 0 <= k < old(self)@.len() implies self.content@[k] == old(
                self,
            )@[k] by {
                assert(self.content@.subrange(0, old(self)@.len() as int)[k] == self.content@[k]);
            }
        }
        assert(self.content@ =~= truncate_result(old(self)@, size));
        Ok(())
    }
}

} // verus!
