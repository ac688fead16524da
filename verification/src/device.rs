//! Device leaves: nodes whose contents are synthetic.

use vstd::prelude::*;
use crate::attr::NodeAttr;
use crate::error::FsError;
use crate::urandom::{chunk_count, chunk_filled, lcg_nth, UrandomDev};

verus! {

/// A buffer of `len` zero bytes.
pub open spec fn zeros(len: nat) -> Seq<u8> {
    Seq::new(len, |i: int| 0u8)
}

/// A null device behaves like `/dev/null`: reading it yields nothing and
/// writing to it discards the data.
pub struct NullDev;

impl NullDev {
    /// The attributes of the device: a device leaf of size 0.
    pub fn get_attr(&self) -> (attr: NodeAttr)
        ensures
            attr == NodeAttr::spec_device(),
    {
        NodeAttr::new_device()
    }

    /// Read nothing and leave `buf` as it is.
    pub fn read_at(&self, _offset: u64, buf: &mut [u8]) -> (res: Result<usize, FsError>)
        ensures
            res == Ok::<usize, FsError>(0),
            final(buf)@ == old(buf)@,
    {
        Ok(0)
    }

    /// Accept and discard `buf`.
    pub fn write_at(&self, _offset: u64, buf: &[u8]) -> (res: Result<usize, FsError>)
        ensures
            res is Ok,
            res->Ok_0 == buf@.len(),
    {
        Ok(buf.len())
    }

    /// Do nothing: a device has no size to change.
    pub fn truncate(&self, _size: u64) -> (res: Result<(), FsError>)
        ensures
            res == Ok::<(), FsError>(()),
    {
        Ok(())
    }
}

/// A zero device behaves like `/dev/zero`: reading it yields zero bytes and
/// writing to it discards the data.
pub struct ZeroDev;

impl ZeroDev {
    /// The attributes of the device: a device leaf of size 0.
    pub fn get_attr(&self) -> (attr: NodeAttr)
        ensures
            attr == NodeAttr::spec_device(),
    {
        NodeAttr::new_device()
    }

    /// Fill all of `buf` with zero bytes.
    pub fn read_at(&self, _offset: u64, buf: &mut [u8]) -> (res: Result<usize, FsError>)
        ensures
            res is Ok,
            res->Ok_0 == old(buf)@.len(),
            final(buf)@ == zeros(old(buf)@.len()),
    {
        let n = buf.len();
        let mut i: usize = 0;
        while i < n
            invariant
                i <= n,
                n == buf@.len(),
                buf@.len() == old(buf)@.len(),
                forall|k: int| 0 <= k < i ==> buf@[k] == 0u8,
            decreases n - i,
        {
            buf[i] = 0;
            i += 1;
        }
        assert(buf@ =~= zeros(old(buf)@.len()));
        Ok(n)
    }

    /// Accept and discard `buf`.
    pub fn write_at(&self, _offset: u64, buf: &[u8]) -> (res: Result<usize, FsError>)
        ensures
            res is Ok,
            res->Ok_0 == buf@.len(),
    {
        Ok(buf.len())
    }

    /// Do nothing: a device has no size to change.
    pub fn truncate(&self, _size: u64) -> (res: Result<(), FsError>)
        ensures
            res == Ok::<(), FsError>(()),
    {
        Ok(())
    }
}

/// What a device leaf is, with the state of a stateful one.
pub enum DeviceView {
    /// The null sink.
    Null,
    /// The zero source.
    Zero,
    /// The pseudorandom source, with the current state of its generator.
    Urandom(u64),
}

impl DeviceView {
    /// The device after a read of `len` bytes: the pseudorandom source has
    /// made one draw for each chunk, the others have no state.
    pub open spec fn after_read(self, len: nat) -> DeviceView {
        match self {
            DeviceView::Urandom(seed) => DeviceView::Urandom(lcg_nth(seed, chunk_count(len))),
            other => other,
        }
    }

    /// Whether `after` can be the caller's buffer after reading this device
    /// into `before`; `n` is the number of bytes that the read reports.
    pub open spec fn read_outcome(self, before: Seq<u8>, after: Seq<u8>, n: usize) -> bool {
        match self {
            DeviceView::Null => n == 0 && after == before,
            DeviceView::Zero => n == before.len() && after == zeros(before.len()),
            DeviceView::Urandom(seed) => {
                &&& n == before.len()
                &&& after.len() == before.len()
                &&& forall|k: int|
                    0 <= k < chunk_count(before.len()) ==> chunk_filled(
                        after,
                        k,
                        #[trigger] lcg_nth(seed, (k + 1) as nat),
                    )
            },
        }
    }
}

/// A device leaf of one of the three kinds.
pub enum Device {
    Null(NullDev),
    Zero(ZeroDev),
    Urandom(UrandomDev),
}

impl View for Device {
    type V = DeviceView;

    open spec fn view(&self) -> DeviceView {
        match self {
            Device::Null(_) => DeviceView::Null,
            Device::Zero(_) => DeviceView::Zero,
            Device::Urandom(dev) => DeviceView::Urandom(dev.spec_seed()),
        }
    }
}

impl Device {
    /// The attributes of the device: a device leaf of size 0, whatever has
    /// been read from it or written to it.
    pub fn get_attr(&self) -> (attr: NodeAttr)
        ensures
            attr == NodeAttr::spec_device(),
    {
        match self {
            Device::Null(dev) => dev.get_attr(),
            Device::Zero(dev) => dev.get_attr(),
            Device::Urandom(dev) => dev.get_attr(),
        }
    }

    /// Read the device into `buf`.
    pub fn read_at(&mut self, offset: u64, buf: &mut [u8]) -> (res: Result<usize, FsError>)
        ensures
            res is Ok,
            old(self)@.read_outcome(old(buf)@, final(buf)@, res->Ok_0),
            final(self)@ == old(self)@.after_read(old(buf)@.len()),
    {
        match self {
            Device::Null(dev) => dev.read_at(offset, buf),
            Device::Zero(dev) => dev.read_at(offset, buf),
            Device::Urandom(dev) => dev.read_at(offset, buf),
        }
    }

    /// Accept and discard `buf`.
    pub fn write_at(&self, offset: u64, buf: &[u8]) -> (res: Result<usize, FsError>)
        ensures
            res is Ok,
            res->Ok_0 == buf@.len(),
    {
        match self {
            Device::Null(dev) => dev.write_at(offset, buf),
            Device::Zero(dev) => dev.write_at(offset, buf),
            Device::Urandom(dev) => dev.write_at(offset, buf),
        }
    }

    /// Do nothing: a device has no size to change.
    pub fn truncate(&self, size: u64) -> (res: Result<(), FsError>)
        ensures
            res == Ok::<(), FsError>(()),
    {
        match self {
            Device::Null(dev) => dev.truncate(size),
            Device::Zero(dev) => dev.truncate(size),
            Device::Urandom(dev) => dev.truncate(size),
        }
    }
}

} // verus!
