//! Contiguous memory regions that are overwritten front to back.
use vstd::prelude::*;

use crate::error::EraseError;
use crate::soc::{baremetal_start, baremetal_start_addr, rram_storage_bytes, rram_storage_len};

verus! {

/// Write granularity of ordinary memory: every write is a whole number of words.
pub const GENERIC_MIN_UPDATE_BYTES: usize = 4;

/// Write granularity of RRAM: every write is a whole number of 32-byte rows.
pub const RERAM_MIN_UPDATE_BYTES: usize = 32;

/// What a region's `write_slice` check answers for a write of `len` bytes, given the
/// region's granularity and the number of bytes left in it.
pub open spec fn write_check(len: int, unit: int, remaining: int) -> Result<(), EraseError> {
    if len % unit != 0 {
        Err(EraseError::BadAlignment)
    } else if len > remaining {
        Err(EraseError::MemoryInUse)
    } else {
        Ok(())
    }
}

/// A span of ordinary memory, written a word at a time.
#[derive(Debug, Clone, Copy)]
pub struct GenericMemRegion {
    start: u32,
    end: u32,
}

impl GenericMemRegion {
    /// First address not yet written.
    pub closed spec fn lo(&self) -> u32 {
        self.start
    }

    /// One past the last address of the region.
    pub closed spec fn hi(&self) -> u32 {
        self.end
    }

    pub open spec fn wf(&self) -> bool {
        self.lo() <= self.hi()
    }

    pub open spec fn remaining(&self) -> int {
        self.hi() - self.lo()
    }

    /// The region of `len` bytes at `start`.  Both must be multiples of the word
    /// size, and the region must lie in the 32-bit address space.
    pub fn new(start: usize, len: usize) -> (r: Self)
        requires
            start % GENERIC_MIN_UPDATE_BYTES == 0,
            len % GENERIC_MIN_UPDATE_BYTES == 0,
            start + len <= u32::MAX,
        ensures
            r.wf(),
            r.lo() == start,
            r.hi() == start + len,
    {
        GenericMemRegion { start: start as u32, end: (start + len) as u32 }
    }

    /// Whether `new` accepts `start` and `len`: both word multiples, and the region
    /// inside the 32-bit address space.
    pub fn fits(start: usize, len: usize) -> (r: bool)
        ensures
            r == (start % GENERIC_MIN_UPDATE_BYTES == 0 && len % GENERIC_MIN_UPDATE_BYTES == 0
                && start + len <= u32::MAX),
    {
        start % GENERIC_MIN_UPDATE_BYTES == 0 && len % GENERIC_MIN_UPDATE_BYTES == 0
            && len <= u32::MAX as usize && start <= u32::MAX as usize - len
    }

    pub fn start(&self) -> (r: u32)
        ensures
            r == self.lo(),
    {
        self.start
    }

    pub fn end(&self) -> (r: u32)
        ensures
            r == self.hi(),
    {
        self.end
    }

    pub fn min_update_size(&self) -> (r: usize)
        ensures
            r == GENERIC_MIN_UPDATE_BYTES,
            r == 4,
    {
        GENERIC_MIN_UPDATE_BYTES
    }

    /// Bytes left between the first unwritten address and the end.
    pub fn len(&self) -> (r: usize)
        requires
            self.wf(),
        ensures
            r == self.remaining(),
    {
        (self.end - self.start) as usize
    }

    /// The checks made before `len` bytes are written at the region's start.
    pub fn check_write(&self, len: usize) -> (r: Result<(), EraseError>)
        requires
            self.wf(),
        ensures
            r == write_check(len as int, GENERIC_MIN_UPDATE_BYTES as int, self.remaining()),
            r is Ok <==> (len % 4 == 0 && len <= self.remaining()),
            len % 4 != 0 ==> r == Err::<(), EraseError>(EraseError::BadAlignment),
            len % 4 == 0 && len > self.remaining() ==> r == Err::<(), EraseError>(EraseError::MemoryInUse),
    {
        if len % GENERIC_MIN_UPDATE_BYTES != 0 {
            return Err(EraseError::BadAlignment);
        }
        if len > self.len() {
            return Err(EraseError::MemoryInUse);
        }
        Ok(())
    }

    /// The verdict on a write once its bytes have been read back from memory.
    pub fn confirm_readback(written: &[u8], read_back: &[u8]) -> (r: Result<(), EraseError>)
        ensures
            r == (if written@ == read_back@ {
                Ok::<(), EraseError>(())
            } else {
                Err(EraseError::AccessDenied)
            }),
    {
        if written.len() != read_back.len() {
            return Err(EraseError::AccessDenied);
        }
        let mut i: usize = 0;
        while i < written.len()
            invariant
                written@.len() == read_back@.len(),
                i <= written@.len(),
                written@.subrange(0, i as int) == read_back@.subrange(0, i as int),
            decreases written.len() - i,
        {
            if written[i] != read_back[i] {
                assert(written@[i as int] != read_back@[i as int]);
                return Err(EraseError::AccessDenied);
            }
            assert(written@.subrange(0, i + 1) =~= written@.subrange(0, i as int).push(written@[i as int]));
            assert(read_back@.subrange(0, i + 1) =~= read_back@.subrange(0, i as int).push(read_back@[i as int]));
            i = i + 1;
        }
        assert(written@ =~= written@.subrange(0, i as int));
        assert(read_back@ =~= read_back@.subrange(0, i as int));
        Ok(())
    }

    /// Drops the first `nbytes` bytes of the region, once they have been written.
    pub fn advance(&mut self, nbytes: usize) -> (r: Result<(), EraseError>)
        requires
            old(self).wf(),
        ensures
            final(self).wf(),
            final(self).hi() == old(self).hi(),
            old(self).remaining() < nbytes ==> r == Err::<(), EraseError>(EraseError::Unavailable)
                && final(self).lo() == old(self).lo(),
            nbytes <= old(self).remaining() ==> r == Ok::<(), EraseError>(())
                && final(self).lo() == old(self).lo() + nbytes,
    {
        if self.len() < nbytes {
            Err(EraseError::Unavailable)
        } else {
            self.start = self.start + nbytes as u32;
            Ok(())
        }
    }
}

/// Smallest multiple of `unit` that is at least `x`.
pub open spec fn round_up(x: int, unit: int) -> int {
    if x % unit == 0 {
        x
    } else {
        x + (unit - x % unit)
    }
}

/// First address of the RRAM region that lies past the baremetal image and the
/// `reserved` bytes kept for it, rounded up to a whole row.
pub open spec fn reram_first_free(reserved: int) -> int {
    round_up(baremetal_start_addr() + reserved, RERAM_MIN_UPDATE_BYTES as int)
}

/// The part of RRAM that follows the baremetal image, written a row at a time.
#[derive(Debug, Clone, Copy)]
pub struct ReramRegion {
    start: u32,
    end: u32,
    base: u32,
}

impl ReramRegion {
    /// First address not yet written.
    pub closed spec fn lo(&self) -> u32 {
        self.start
    }

    /// One past the last address of the region.
    pub closed spec fn hi(&self) -> u32 {
        self.end
    }

    /// Address at which the RRAM array is mapped; writes go through the storage
    /// driver at offsets from it.
    pub closed spec fn base(&self) -> u32 {
        self.base
    }

    pub open spec fn wf(&self) -> bool {
        self.lo() <= self.hi()
    }

    pub open spec fn remaining(&self) -> int {
        self.hi() - self.lo()
    }

    /// The RRAM past the baremetal image and `baremetal_image_text_reserved` bytes
    /// after it, up to the end of the storage area of the RRAM mapped at `reram_base`.
    /// The start is rounded up to a whole row; the region must not end before it starts.
    pub fn new(baremetal_image_text_reserved: usize, reram_base: usize) -> (r: Self)
        requires
            reram_base + rram_storage_bytes() <= u32::MAX,
            reram_first_free(baremetal_image_text_reserved as int) <= reram_base + rram_storage_bytes(),
        ensures
            r.wf(),
            r.lo() == reram_first_free(baremetal_image_text_reserved as int),
            r.lo() as int % RERAM_MIN_UPDATE_BYTES as int == 0,
            baremetal_start_addr() + baremetal_image_text_reserved <= r.lo(),
            r.lo() < baremetal_start_addr() + baremetal_image_text_reserved + RERAM_MIN_UPDATE_BYTES,
            r.hi() == reram_base + rram_storage_bytes(),
            r.base() == reram_base,
    {
        let mut start = baremetal_start() + baremetal_image_text_reserved;
        let end = reram_base + rram_storage_len();
        if start % RERAM_MIN_UPDATE_BYTES != 0 {
            start = start + (RERAM_MIN_UPDATE_BYTES - start % RERAM_MIN_UPDATE_BYTES);
        }
        assert(start as int % RERAM_MIN_UPDATE_BYTES as int == 0) by {
            let s0 = baremetal_start_addr() + baremetal_image_text_reserved;
            if s0 % 32 != 0 {
                assert((s0 + (32 - s0 % 32)) % 32 == 0) by (nonlinear_arith)
                    requires s0 >= 0;
            }
        }
        ReramRegion { start: start as u32, end: end as u32, base: reram_base as u32 }
    }

    /// Whether `new` accepts `baremetal_image_text_reserved` and `reram_base`: the
    /// storage area ends inside the 32-bit address space, and not before the region's
    /// rounded-up start.
    pub fn fits(baremetal_image_text_reserved: usize, reram_base: usize) -> (r: bool)
        ensures
            r == (reram_base + rram_storage_bytes() <= u32::MAX && reram_first_free(
                baremetal_image_text_reserved as int,
            ) <= reram_base + rram_storage_bytes()),
    {
        let storage = rram_storage_len();
        if reram_base > u32::MAX as usize - storage {
            return false;
        }
        let end = reram_base + storage;
        let first = baremetal_start();
        if baremetal_image_text_reserved > end || first > end - baremetal_image_text_reserved {
            return false;
        }
        let start = first + baremetal_image_text_reserved;
        if start % RERAM_MIN_UPDATE_BYTES == 0 {
            true
        } else {
            RERAM_MIN_UPDATE_BYTES - start % RERAM_MIN_UPDATE_BYTES <= end - start
        }
    }

    /// Whether the storage area of the RRAM mapped at `reram_base` ends on a row
    /// boundary, so that the region holds a whole number of rows.
    pub fn ends_on_row(reram_base: usize) -> (r: bool)
        ensures
            r == ((reram_base + rram_storage_bytes()) % RERAM_MIN_UPDATE_BYTES as int == 0),
    {
        let storage = rram_storage_len();
        proof {
            vstd::arithmetic::div_mod::lemma_add_mod_noop(reram_base as int, storage as int, 32);
        }
        (reram_base % RERAM_MIN_UPDATE_BYTES + storage % RERAM_MIN_UPDATE_BYTES) % RERAM_MIN_UPDATE_BYTES == 0
    }

    /// Address at which the RRAM array is mapped.
    pub fn rram_base(&self) -> (r: u32)
        ensures
            r == self.base(),
    {
        self.base
    }

    pub fn start(&self) -> (r: u32)
        ensures
            r == self.lo(),
    {
        self.start
    }

    pub fn end(&self) -> (r: u32)
        ensures
            r == self.hi(),
    {
        self.end
    }

    pub fn min_update_size(&self) -> (r: usize)
        ensures
            r == RERAM_MIN_UPDATE_BYTES,
            r == 32,
    {
        RERAM_MIN_UPDATE_BYTES
    }

    /// Bytes left between the first unwritten address and the end.
    pub fn len(&self) -> (r: usize)
        requires
            self.wf(),
        ensures
            r == self.remaining(),
    {
        (self.end - self.start) as usize
    }

    /// The checks made before `len` bytes are written at the region's start.
    pub fn check_write(&self, len: usize) -> (r: Result<(), EraseError>)
        requires
            self.wf(),
        ensures
            r == write_check(len as int, RERAM_MIN_UPDATE_BYTES as int, self.remaining()),
            r is Ok <==> (len % 32 == 0 && len <= self.remaining()),
            len % 32 != 0 ==> r == Err::<(), EraseError>(EraseError::BadAlignment),
            len % 32 == 0 && len > self.remaining() ==> r == Err::<(), EraseError>(EraseError::MemoryInUse),
    {
        if len % RERAM_MIN_UPDATE_BYTES != 0 {
            return Err(EraseError::BadAlignment);
        }
        if len > self.len() {
            return Err(EraseError::MemoryInUse);
        }
        Ok(())
    }

    /// Offset of the region's first unwritten byte from the start of RRAM, which is
    /// where the storage driver is asked to write.
    pub fn offset(&self) -> (r: usize)
        requires
            self.base() <= self.lo(),
        ensures
            r == self.lo() - self.base(),
    {
        (self.start - self.base) as usize
    }

    /// The verdict on a write once the storage driver reports how many bytes it wrote.
    pub fn confirm_written(written: usize, expected: usize) -> (r: Result<(), EraseError>)
        ensures
            r == (if written == expected {
                Ok::<(), EraseError>(())
            } else {
                Err(EraseError::InternalError)
            }),
    {
        if written != expected {
            Err(EraseError::InternalError)
        } else {
            Ok(())
        }
    }

    /// Drops the first `nbytes` bytes of the region, once they have been written.
    pub fn advance(&mut self, nbytes: usize) -> (r: Result<(), EraseError>)
        requires
            old(self).wf(),
        ensures
            final(self).wf(),
            final(self).hi() == old(self).hi(),
            final(self).base() == old(self).base(),
            old(self).remaining() < nbytes ==> r == Err::<(), EraseError>(EraseError::Unavailable)
                && final(self).lo() == old(self).lo(),
            nbytes <= old(self).remaining() ==> r == Ok::<(), EraseError>(())
                && final(self).lo() == old(self).lo() + nbytes,
    {
        if self.len() < nbytes {
            Err(EraseError::Unavailable)
        } else {
            self.start = self.start + nbytes as u32;
            Ok(())
        }
    }
}


/// A region of either kind, as the traversal holds it.
#[derive(Debug, Clone, Copy)]
pub enum MemRegion {
    Generic(GenericMemRegion),
    Reram(ReramRegion),
}

impl MemRegion {
    /// First address not yet written.
    pub open spec fn lo(&self) -> int {
        match self {
            MemRegion::Generic(g) => g.lo() as int,
            MemRegion::Reram(r) => r.lo() as int,
        }
    }

    /// One past the last address of the region.
    pub open spec fn hi(&self) -> int {
        match self {
            MemRegion::Generic(g) => g.hi() as int,
            MemRegion::Reram(r) => r.hi() as int,
        }
    }

    /// Write granularity: every write into the region is a multiple of it.
    pub open spec fn unit(&self) -> int {
        match self {
            MemRegion::Generic(_) => GENERIC_MIN_UPDATE_BYTES as int,
            MemRegion::Reram(_) => RERAM_MIN_UPDATE_BYTES as int,
        }
    }

    pub open spec fn wf(&self) -> bool {
        self.lo() <= self.hi()
    }

    pub open spec fn remaining(&self) -> int {
        self.hi() - self.lo()
    }

    /// The same region with its first `n` bytes dropped.
    pub open spec fn advanced_by(&self, other: MemRegion, n: int) -> bool {
        &&& other.lo() == self.lo() + n
        &&& other.hi() == self.hi()
        &&& other.unit() == self.unit()
        &&& match (self, other) {
            (MemRegion::Reram(a), MemRegion::Reram(b)) => a.base() == b.base(),
            (MemRegion::Generic(_), MemRegion::Generic(_)) => true,
            _ => false,
        }
    }

    /// The region with its first `n` bytes dropped.
    pub closed spec fn skipped(&self, n: int) -> MemRegion {
        match self {
            MemRegion::Generic(g) => MemRegion::Generic(
                GenericMemRegion { start: (g.start + n) as u32, end: g.end },
            ),
            MemRegion::Reram(r) => MemRegion::Reram(
                ReramRegion { start: (r.start + n) as u32, end: r.end, base: r.base },
            ),
        }
    }

    /// Dropping up to the whole region from its front gives the region advanced by
    /// that much; dropping nothing gives the region itself.
    pub proof fn lemma_skipped(&self, n: int)
        requires
            self.wf(),
            0 <= n <= self.remaining(),
        ensures
            self.advanced_by(self.skipped(n), n),
            self.skipped(n).wf(),
            n == 0 ==> self.skipped(n) == *self,
    {
    }

    /// Dropping `a` bytes and then `b` bytes drops `a + b` bytes.
    pub proof fn lemma_skipped_twice(&self, a: int, b: int)
        requires
            self.wf(),
            0 <= a,
            0 <= b,
            a + b <= self.remaining(),
        ensures
            self.skipped(a).skipped(b) == self.skipped(a + b),
    {
    }

    pub fn start(&self) -> (r: u32)
        ensures
            r == self.lo(),
    {
        match self {
            MemRegion::Generic(g) => g.start(),
            MemRegion::Reram(r) => r.start(),
        }
    }

    pub fn end(&self) -> (r: u32)
        ensures
            r == self.hi(),
    {
        match self {
            MemRegion::Generic(g) => g.end(),
            MemRegion::Reram(r) => r.end(),
        }
    }

    pub fn min_update_size(&self) -> (r: usize)
        ensures
            r == self.unit(),
            self is Reram ==> r == 32,
            self is Generic ==> r == 4,
    {
        match self {
            MemRegion::Generic(g) => g.min_update_size(),
            MemRegion::Reram(r) => r.min_update_size(),
        }
    }

    /// Bytes left between the first unwritten address and the end.
    pub fn len(&self) -> (r: usize)
        requires
            self.wf(),
        ensures
            r == self.remaining(),
    {
        match self {
            MemRegion::Generic(g) => g.len(),
            MemRegion::Reram(r) => r.len(),
        }
    }

    /// The checks made before `len` bytes are written at the region's start.
    pub fn check_write(&self, len: usize) -> (r: Result<(), EraseError>)
        requires
            self.wf(),
        ensures
            r == write_check(len as int, self.unit(), self.remaining()),
            r is Ok <==> (len as int % self.unit() == 0 && len <= self.remaining()),
            len as int % self.unit() != 0 ==> r == Err::<(), EraseError>(EraseError::BadAlignment),
            len as int % self.unit() == 0 && len > self.remaining() ==> r == Err::<(), EraseError>(
                EraseError::MemoryInUse,
            ),
    {
        match self {
            MemRegion::Generic(g) => g.check_write(len),
            MemRegion::Reram(r) => r.check_write(len),
        }
    }

    /// Drops the first `nbytes` bytes of the region, once they have been written.
    pub fn advance(&mut self, nbytes: usize) -> (r: Result<(), EraseError>)
        requires
            old(self).wf(),
        ensures
            final(self).wf(),
            old(self).remaining() < nbytes ==> r == Err::<(), EraseError>(EraseError::Unavailable)
                && *final(self) == *old(self),
            nbytes <= old(self).remaining() ==> r == Ok::<(), EraseError>(())
                && old(self).advanced_by(*final(self), nbytes as int)
                && *final(self) == old(self).skipped(nbytes as int),
    {
        match *self {
            MemRegion::Generic(g) => {
                let mut g = g;
                let r = g.advance(nbytes);
                *self = MemRegion::Generic(g);
                r
            },
            MemRegion::Reram(m) => {
                let mut m = m;
                let r = m.advance(nbytes);
                *self = MemRegion::Reram(m);
                r
            },
        }
    }
}

} // verus!
