//! The erasure of the loader's scratch memory, as the rest of the firmware sees it.
use vstd::prelude::*;

use crate::error::EraseError;
use crate::region::reram_first_free;
use crate::soc::rram_storage_bytes;
use crate::traversal::{
    erased_area, last_unit, planned, ready, scratch_areas_ok, stepped, MemoryTraversal, WritePlan,
    WriteStep, BAREMETAL_IMAGE_RESERVED,
};

verus! {

/// Fills the erased area with a key stream and counts the bytes taken.
pub struct Erasure {
    traversal: MemoryTraversal,
    bytes_written: usize,
}

impl Erasure {
    pub closed spec fn traversal(&self) -> MemoryTraversal {
        self.traversal
    }

    /// Bytes taken by the writes that completed.
    pub closed spec fn written_count(&self) -> int {
        self.bytes_written as int
    }

    pub open spec fn wf(&self) -> bool {
        ready(self.traversal())
    }

    /// `len` more bytes fit: with the held bytes they leave less than a unit of the
    /// last region over once every region is full.
    pub open spec fn room_for(&self, len: int) -> bool {
        self.traversal().held().len() + len < self.traversal().capacity() + last_unit(self.traversal())
    }

    /// An erasure of the RRAM past the baremetal image (the RRAM array being mapped
    /// at `reram_base`) and then of each `scratch` area, given as start and length.
    pub fn new(reram_base: usize, scratch: &[(usize, usize)]) -> (e: Self)
        requires
            reram_base + rram_storage_bytes() <= u32::MAX,
            reram_first_free(BAREMETAL_IMAGE_RESERVED as int) <= reram_base + rram_storage_bytes(),
            (reram_base + rram_storage_bytes()) % 32 == 0,
            scratch_areas_ok(scratch@),
        ensures
            e.wf(),
            erased_area(e.traversal(), reram_base, scratch@),
            e.written_count() == 0,
    {
        Erasure { traversal: MemoryTraversal::new(reram_base, scratch), bytes_written: 0 }
    }

    /// Remaining length to fill.
    pub fn len(&self) -> (r: usize)
        requires
            self.wf(),
            self.traversal().capacity() <= usize::MAX,
        ensures
            r == self.traversal().capacity(),
    {
        self.traversal.len()
    }

    /// Whether the remaining length to fill can be counted in a `usize`.
    pub fn len_fits(&self) -> (r: bool)
        requires
            self.wf(),
        ensures
            r == (self.traversal().capacity() <= usize::MAX),
    {
        self.traversal.len_fits()
    }

    /// Next address to fill.
    pub fn peek(&self) -> (r: u32)
        requires
            self.wf(),
        ensures
            r == self.traversal().current().lo(),
    {
        self.traversal.peek()
    }

    /// Bytes taken by the writes that completed.
    pub fn bytes_written(&self) -> (r: usize)
        ensures
            r == self.written_count(),
    {
        self.bytes_written
    }

    /// Whether `len` more bytes fit.
    pub fn has_room_for(&self, len: usize) -> (r: bool)
        requires
            self.wf(),
        ensures
            r == self.room_for(len as int),
            r == (self.traversal().held().len() + len < self.traversal().capacity()
                + self.traversal().regions().last().unit()),
    {
        self.traversal.has_room_for(len)
    }

    /// The writes that writing `data` makes, in order, when every write succeeds;
    /// the count of bytes written grows by the length of `data`.
    pub fn write_slice(&mut self, data: &[u8]) -> (plan: WritePlan)
        requires
            old(self).wf(),
            old(self).room_for(data@.len() as int),
            old(self).written_count() + data@.len() <= usize::MAX,
        ensures
            final(self).wf(),
            planned(old(self).traversal(), final(self).traversal(), data@, plan),
            plan.result is Ok,
            final(self).written_count() == old(self).written_count() + data@.len(),
    {
        let plan = self.traversal.write_slice(data);
        self.bytes_written = self.bytes_written + data.len();
        plan
    }

    /// Decides the next step of writing `data` from `pos` on (see
    /// `MemoryTraversal::write_step`).
    pub fn write_step(&mut self, data: &[u8], pos: usize) -> (step: WriteStep)
        requires
            old(self).wf(),
            pos <= data@.len(),
        ensures
            stepped(old(self).traversal(), final(self).traversal(), data@, pos as int, step),
            final(self).written_count() == old(self).written_count(),
    {
        self.traversal.write_step(data, pos)
    }

    /// Reports that the write of `written` bytes that `write_step` decided has been
    /// made (see `MemoryTraversal::write_done`).
    pub fn write_done(&mut self, written: usize)
        requires
            old(self).traversal().wf(),
            crate::fill::aligned_from(old(self).traversal().regions(), old(self).traversal().cursor()),
            written <= old(self).traversal().current().remaining(),
            written as int % old(self).traversal().current().unit() == 0,
            old(self).traversal().held().len() == 0 || old(self).traversal().held().len() == written,
        ensures
            final(self).traversal().regions() == old(self).traversal().regions().update(
                old(self).traversal().cursor(),
                old(self).traversal().current().skipped(written as int),
            ),
            final(self).traversal().cursor() == crate::fill::cursor_at(
                final(self).traversal().regions(),
                old(self).traversal().cursor(),
                0,
            ),
            final(self).traversal().held().len() == 0,
            final(self).traversal().after_unit() == (old(self).traversal().held().len() > 0),
            final(self).wf(),
            final(self).written_count() == old(self).written_count(),
    {
        self.traversal.write_done(written)
    }

    /// Counts the `len` bytes of a write that completed.
    pub fn count_written(&mut self, len: usize)
        requires
            old(self).written_count() + len <= usize::MAX,
        ensures
            final(self).traversal() == old(self).traversal(),
            final(self).written_count() == old(self).written_count() + len,
    {
        self.bytes_written = self.bytes_written + len;
    }
}

/// The key held in `key`, which must be 16 bytes long.
pub fn key_from_bytes(key: &[u8]) -> (r: Result<[u8; 16], EraseError>)
    ensures
        key@.len() == 16 ==> (r matches Ok(k) && k@ == key@),
        key@.len() != 16 ==> r == Err::<[u8; 16], EraseError>(EraseError::InternalError),
{
    if key.len() != 16 {
        return Err(EraseError::InternalError);
    }
    let mut k = [0u8; 16];
    let mut i: usize = 0;
    while i < 16
        invariant
            key@.len() == 16,
            i <= 16,
            forall|j: int| 0 <= j < i ==> k@[j] == key@[j],
        decreases 16 - i,
    {
        k[i] = key[i];
        i = i + 1;
    }
    assert(k@ =~= key@);
    Ok(k)
}

} // verus!
