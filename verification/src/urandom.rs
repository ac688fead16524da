//! A pseudorandom byte source driven by a 64-bit linear-congruential
//! generator.

use vstd::prelude::*;
use crate::attr::NodeAttr;
use crate::error::FsError;

verus! {

/// The multiplier of the generator.
pub const LCG_MULTIPLIER: u64 = 6364136223846793005;

/// The seed a device starts from when none is given.
pub const DEFAULT_SEED: u64 = 0xa2ce_a2ce;

/// One step of the generator: `seed * LCG_MULTIPLIER + 1` modulo 2^64.
pub open spec fn lcg_next(seed: u64) -> u64 {
    ((seed as int * LCG_MULTIPLIER as int + 1) % 0x1_0000_0000_0000_0000) as u64
}

/// The state after `n` steps from `seed`; for `n > 0` also the `n`-th draw.
pub open spec fn lcg_nth(seed: u64, n: nat) -> u64
    decreases n,
{
    if n == 0 {
        seed
    } else {
        lcg_next(lcg_nth(seed, (n - 1) as nat))
    }
}

/// Byte `i` of `v`, counting from the least significant.
pub open spec fn byte_of(v: u64, i: int) -> u8 {
    ((v as int / pow256(i)) % 256) as u8
}

/// 256 to the power `i`, for `i` from 0 to 7.
pub open spec fn pow256(i: int) -> int {
    if i <= 0 {
        1
    } else if i == 1 {
        0x100
    } else if i == 2 {
        0x1_0000
    } else if i == 3 {
        0x100_0000
    } else if i == 4 {
        0x1_0000_0000
    } else if i == 5 {
        0x100_0000_0000
    } else if i == 6 {
        0x1_0000_0000_0000
    } else {
        0x100_0000_0000_0000
    }
}

/// The eight bytes of `v`, least significant first.
pub open spec fn le_bytes(v: u64) -> Seq<u8> {
    Seq::new(8, |i: int| byte_of(v, i))
}

/// The eight bytes of `v`, most significant first.
pub open spec fn be_bytes(v: u64) -> Seq<u8> {
    Seq::new(8, |i: int| byte_of(v, 7 - i))
}

/// How many 8-byte chunks, the last one possibly shorter, cover `len` bytes.
pub open spec fn chunk_count(len: nat) -> nat {
    ((len + 7) / 8) as nat
}

/// Chunk `k` of `buf` holds the leading bytes of `bytes`.
pub open spec fn chunk_is(buf: Seq<u8>, k: int, bytes: Seq<u8>) -> bool {
    forall|j: int| 0 <= j < 8 && 8 * k + j < buf.len() ==> buf[8 * k + j] == #[trigger] bytes[j]
}

/// Chunk `k` of `buf` holds the leading bytes of `draw`, in one of the two
/// byte orders a machine can have.
pub open spec fn chunk_filled(buf: Seq<u8>, k: int, draw: u64) -> bool {
    chunk_is(buf, k, le_bytes(draw)) || chunk_is(buf, k, be_bytes(draw))
}

/// Calls `u64::to_ne_bytes`, which returns the eight bytes of `v` in the
/// byte order of the machine: either least significant first or most
/// significant first.
#[verifier::external_body]
fn native_bytes(v: u64) -> (bytes: [u8; 8])
    ensures
        bytes@ == le_bytes(v) || bytes@ == be_bytes(v),
{
    v.to_ne_bytes()
}

/// A device that behaves like `/dev/urandom`: reading it yields
/// pseudorandom bytes, writing to it discards the data.
pub struct UrandomDev {
    seed: u64,
}

impl UrandomDev {
    /// The current state of the generator.
    pub closed spec fn spec_seed(&self) -> u64 {
        self.seed
    }

    /// Create a new instance of the urandom device.
    pub fn new(seed: u64) -> (dev: Self)
        ensures
            dev.seed() == seed,
    {
        Self { seed }
    }

    /// Create a new instance with the default seed.
    pub fn new_with_default_seed() -> (dev: Self)
        ensures
            dev.seed() == DEFAULT_SEED,
    {
        Self::new(DEFAULT_SEED)
    }

    /// The current state of the generator.
    #[verifier::when_used_as_spec(spec_seed)]
    pub fn seed(&self) -> (seed: u64)
        ensures
            seed == self.seed(),
    {
        self.seed
    }

    /// Advance the generator by one step and return the new state.
    pub fn next_u64(&mut self) -> (draw: u64)
        ensures
            draw == lcg_next(old(self).seed()),
            final(self).seed() == draw,
    {
        let new_seed = self.seed.wrapping_mul(LCG_MULTIPLIER).wrapping_add(1);
        assert(new_seed == lcg_next(self.seed)) by {
            let p = self.seed as int * LCG_MULTIPLIER as int;
            assert(p >= 0) by (nonlinear_arith)
                requires
                    p == self.seed as int * LCG_MULTIPLIER as int,
                    self.seed >= 0,
                    LCG_MULTIPLIER >= 0,
            ;
            let m = 0x1_0000_0000_0000_0000int;
            assert((p + 1) % m == if p % m + 1 == m { 0 } else { p % m + 1 }) by {
                vstd::arithmetic::div_mod::lemma_fundamental_div_mod(p, m);
                vstd::arithmetic::div_mod::lemma_fundamental_div_mod_converse(
                    p + 1,
                    m,
                    if p % m + 1 == m { p / m + 1 } else { p / m },
                    if p % m + 1 == m { 0 } else { p % m + 1 },
                );
            }
        }
        self.seed = new_seed;
        new_seed
    }

    /// The attributes of the device: a device leaf of size 0.
    pub fn get_attr(&self) -> (attr: NodeAttr)
        ensures
            attr == NodeAttr::spec_device(),
    {
        NodeAttr::new_device()
    }

    /// Fill `buf` with pseudorandom bytes: one draw of the generator for
    /// each chunk of eight bytes, a shorter last chunk taking the leading
    /// bytes of its draw. The offset is ignored.
    pub fn read_at(&mut self, _offset: u64, buf: &mut [u8]) -> (res: Result<usize, FsError>)
        ensures
            res is Ok,
            res->Ok_0 == old(buf)@.len(),
            final(buf)@.len() == old(buf)@.len(),
            final(self).seed() == lcg_nth(old(self).seed(), chunk_count(old(buf)@.len())),
            forall|k: int|
                0 <= k < chunk_count(old(buf)@.len()) ==> chunk_filled(
                    final(buf)@,
                    k,
                    #[trigger] lcg_nth(old(self).seed(), (k + 1) as nat),
                ),
    {
        let n = buf.len();
        let ghost seed0 = self.seed;
        let mut pos: usize = 0;
        let mut chunks: Ghost<nat> = Ghost(0);
        while pos < n
            invariant
                n == buf@.len(),
                buf@.len() == old(buf)@.len(),
                pos <= n,
                pos == n || pos == 8 * chunks@,
                chunks@ == chunk_count(pos as nat),
                self.seed == lcg_nth(seed0, chunks@),
                forall|k: int|
                    0 <= k < chunks@ ==> chunk_filled(
                        buf@,
                        k,
                        #[trigger] lcg_nth(seed0, (k + 1) as nat),
                    ),
            decreases n - pos,
        {
            let draw = self.next_u64();
            let bytes = native_bytes(draw);
            let ghost before = buf@;
            let ghost k0 = chunks@ as int;
            let mut j: usize = 0;
            while j < 8 && j < n - pos
                invariant
                    n == buf@.len(),
                    pos < n,
                    pos == 8 * k0,
                    j <= 8,
                    j <= n - pos,
                    bytes@.len() == 8,
                    before.len() == n,
                    forall|i: int| 0 <= i < pos ==> buf@[i] == before[i],
                    forall|i: int| 0 <= i < j ==> buf@[pos + i] == bytes@[i],
                decreases 8 - j,
            {
                buf[pos + j] = bytes[j];
                j += 1;
            }
            proof {
                assert forall|k: int| 0 <= k < k0 + 1 implies chunk_filled(
                    buf@,
                    k,
                    #[trigger] lcg_nth(seed0, (k + 1) as nat),
                ) by {
                    let d = lcg_nth(seed0, (k + 1) as nat);
                    if k < k0 {
                        assert(chunk_filled(before, k, d));
                        if chunk_is(before, k, le_bytes(d)) {
                            assert(chunk_is(buf@, k, le_bytes(d)));
                        } else {
                            assert(chunk_is(buf@, k, be_bytes(d)));
                        }
                    } else {
                        assert(d == draw);
                        if bytes@ == le_bytes(draw) {
                            assert(chunk_is(buf@, k, le_bytes(d)));
                        } else {
                            assert(chunk_is(buf@, k, be_bytes(d)));
                        }
                    }
                }
                chunks@ = chunks@ + 1;
            }
            pos += j;
        }
        Ok(n)
    }

    /// Accept and discard `buf`.
    pub fn write_at(&self, _offset: u64, buf: &[u8]) -> (res: Result<usize, FsError>)
        ensures
            res is Ok,
            res->Ok_0 == buf@.len(),
    {
        Ok(buf.len())
    }

    /// Do nothing: a device has no size to change.
    pub fn truncate(&self, _size: u64) -> (res: Result<(), FsError>)
        ensures
            res == Ok::<(), FsError>(()),
    {
        Ok(())
    }
}

impl Default for UrandomDev {
    fn default() -> (dev: Self)
        ensures
            dev.seed() == DEFAULT_SEED,
    {
        Self::new_with_default_seed()
    }
}

} // verus!
