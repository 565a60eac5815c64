//! Filling a list of regions, front to back, with a stream of bytes.
use vstd::prelude::*;

use crate::error::EraseError;
use crate::region::{reram_first_free, GenericMemRegion, MemRegion, ReramRegion};
use crate::fill::{
    aligned_from, all_wf, cursor_at, filled, greedy, lemma_fill_compose, lemma_greedy_step,
    lemma_whole_units_small,
    lemma_skip_empty, lemma_space_unfold_rem, lemma_step_cursor, min, whole_units,
};
use crate::soc::rram_storage_bytes;

verus! {

/// Address that the `k`-th byte counted from the fill position goes to, when the
/// regions are filled in order starting with region `i` at its first unwritten
/// address; `-1` once every region is full.
pub open spec fn fill_addr(regions: Seq<MemRegion>, i: int, k: int) -> int
    decreases regions.len() - i,
{
    if i < 0 || i >= regions.len() {
        -1
    } else if k < regions[i].remaining() {
        regions[i].lo() + k
    } else {
        fill_addr(regions, i + 1, k - regions[i].remaining())
    }
}

/// Bytes left in regions `from .. to`.
pub open spec fn space(regions: Seq<MemRegion>, from: int, to: int) -> int
    decreases to - from,
{
    if to <= from {
        0
    } else {
        regions[from].remaining() + space(regions, from + 1, to)
    }
}

/// One write to memory: `data` goes to `region`'s first unwritten address.
#[derive(Debug)]
pub struct BlockWrite {
    /// Index of the region in the traversal.
    pub block: usize,
    /// The region as it stood when the write was decided.
    pub region: MemRegion,
    pub data: Vec<u8>,
}

/// The bytes of `writes`, in order.
pub open spec fn written_bytes(writes: Seq<BlockWrite>) -> Seq<u8>
    decreases writes.len(),
{
    if writes.len() == 0 {
        Seq::empty()
    } else {
        written_bytes(writes.drop_last()) + writes.last().data@
    }
}

/// The writes that one call of `write_slice` makes, in order, and how it ended.
#[derive(Debug)]
pub struct WritePlan {
    pub writes: Vec<BlockWrite>,
    /// How many bytes of the data were taken (written or held).
    pub taken: usize,
    pub result: Result<(), EraseError>,
}

/// What to do next while writing data through a traversal.
#[derive(Debug)]
pub enum WriteStep {
    /// What is left of the data was held back: the write is complete.
    Held,
    /// Write `data` at `region`'s first unwritten address (`region` is region
    /// `block`), report it with `write_done`, and go on with the data from `next`.
    Write { block: usize, region: MemRegion, data: Vec<u8>, next: usize },
    /// The write fails with this error: no region is left.
    Failed(EraseError),
}

/// A traversal of regions that takes bytes in any amounts and writes them in
/// whole units of each region's granularity, holding back what does not make a
/// whole unit yet.
pub struct MemoryTraversal {
    idx: usize,
    pending: Vec<u8>,
    blocks: Vec<MemRegion>,
    /// A unit completed from held bytes was just written: the data that follows
    /// it is written next, without being held.
    flushed: bool,
}

impl MemoryTraversal {
    /// Index of the region being filled.
    pub closed spec fn cursor(&self) -> int {
        self.idx as int
    }

    /// Bytes taken but not written yet.
    pub closed spec fn held(&self) -> Seq<u8> {
        self.pending@
    }

    pub closed spec fn regions(&self) -> Seq<MemRegion> {
        self.blocks@
    }

    /// A unit completed from held bytes was just written, and the data that
    /// follows it is written next whatever its length.
    pub closed spec fn after_unit(&self) -> bool {
        self.flushed
    }

    pub open spec fn wf(&self) -> bool {
        &&& 0 <= self.cursor() < self.regions().len()
        &&& forall|b: int| 0 <= b < self.regions().len() ==> #[trigger] self.regions()[b].wf()
    }

    /// Bytes that can still be written, from the fill position to the end.
    pub open spec fn capacity(&self) -> int {
        space(self.regions(), self.cursor(), self.regions().len() as int)
    }

    pub open spec fn current(&self) -> MemRegion {
        self.regions()[self.cursor()]
    }
}

/// The `j`-th of `writes` is a whole number of units of its region, fits in it, and
/// puts each byte where filling `before` from its fill position puts that byte of
/// the written stream.
pub open spec fn write_lands(before: MemoryTraversal, writes: Seq<BlockWrite>, j: int) -> bool {
    let w = writes[j];
    let off = written_bytes(writes.subrange(0, j)).len() as int;
    &&& 0 <= w.block < before.regions().len()
    &&& w.region.wf()
    &&& before.regions()[w.block as int].advanced_by(w.region, w.region.lo() - before.regions()[w.block as int].lo())
    &&& w.data@.len() as int % w.region.unit() == 0
    &&& w.data@.len() <= w.region.remaining()
    &&& forall|k: int|
        off <= k < off + w.data@.len() ==> #[trigger] fill_addr(before.regions(), before.cursor(), k)
            == w.region.lo() + (k - off)
}

/// `now` is `before` with the bytes of `writes` written: the regions only lost
/// bytes at their front, the fill position moved past exactly those bytes, and
/// each write landed where filling `before` puts its bytes.
pub open spec fn follows(before: MemoryTraversal, now: MemoryTraversal, writes: Seq<BlockWrite>) -> bool {
    let out = written_bytes(writes);
    &&& before.wf()
    &&& now.wf()
    &&& now.regions().len() == before.regions().len()
    &&& forall|b: int|
        0 <= b < before.regions().len() ==> #[trigger] before.regions()[b].advanced_by(
            now.regions()[b],
            now.regions()[b].lo() - before.regions()[b].lo(),
        )
    &&& now.capacity() + out.len() == before.capacity()
    &&& forall|k: int|
        k >= 0 ==> #[trigger] fill_addr(now.regions(), now.cursor(), k) == fill_addr(
            before.regions(),
            before.cursor(),
            out.len() + k,
        )
    &&& forall|j: int| 0 <= j < writes.len() ==> #[trigger] write_lands(before, writes, j)
    &&& forall|b: int|
        0 <= b < before.regions().len() ==> before.regions()[b].lo() <= #[trigger] now.regions()[b].lo()
            && (now.regions()[b].lo() - before.regions()[b].lo()) % before.regions()[b].unit() == 0
    &&& before.cursor() <= now.cursor()
    &&& forall|b: int| before.cursor() <= b < now.cursor() ==> #[trigger] now.regions()[b].remaining() == 0
    &&& forall|j: int| 0 <= j < writes.len() ==> before.cursor() <= #[trigger] writes[j].block <= now.cursor()
}

/// The traversal is ready to take data: every region from the one being filled
/// on has a whole number of units left, the region being filled has room unless it
/// is the last, and less than one of its units is held.
pub open spec fn ready(t: MemoryTraversal) -> bool {
    &&& t.wf()
    &&& aligned_from(t.regions(), t.cursor())
    &&& t.held().len() < t.current().unit()
    &&& t.current().remaining() > 0 || t.cursor() == t.regions().len() - 1
    &&& t.after_unit() ==> t.held().len() == 0
}

/// Granularity of the last region.
pub open spec fn last_unit(t: MemoryTraversal) -> int {
    t.regions().last().unit()
}

/// `plan` is what writing `data` through `before` makes, leaving `after`, when every
/// write succeeds.  Of the bytes held before followed by the data, the first ones
/// that filling the regions with whole units takes are written, in order, where
/// filling puts them; the rest is held, unless even then a whole unit of the last,
/// full, region is left, and the call fails with `OutOfMemory` without taking more.
pub open spec fn planned(
    before: MemoryTraversal,
    after: MemoryTraversal,
    data: Seq<u8>,
    plan: WritePlan,
) -> bool {
    let stream = before.held() + data;
    let w = greedy(before.regions(), before.cursor(), stream.len() as int);
    &&& ready(after)
    &&& follows(before, after, plan.writes@)
    &&& written_bytes(plan.writes@) == stream.subrange(0, w)
    &&& plan.taken <= data.len()
    &&& written_bytes(plan.writes@) + after.held() == before.held() + data.subrange(0, plan.taken as int)
    &&& after.regions() == filled(before.regions(), before.cursor(), w)
    &&& after.cursor() == cursor_at(before.regions(), before.cursor(), w)
    &&& (plan.result is Ok <==> stream.len() - w < after.current().unit())
    &&& plan.result is Ok ==> plan.taken == data.len() && after.held() == stream.subrange(w, stream.len() as int)
    &&& plan.result is Err ==> {
        &&& plan.result == Err::<(), EraseError>(EraseError::OutOfMemory)
        &&& w == before.capacity()
        &&& after.cursor() == after.regions().len() - 1
        &&& if w == 0 {
            plan.taken == 0 && after.held() == before.held()
        } else {
            after.held().len() == 0 && plan.taken == w - before.held().len()
        }
    }
    &&& stream.len() < before.capacity() + last_unit(before) ==> plan.result is Ok
}

/// While writing `data` through `before`: `now` follows from `before` by `writes`,
/// and the bytes written and held are the bytes held before and `data[..pos]`.
pub open spec fn taking(
    before: MemoryTraversal,
    now: MemoryTraversal,
    writes: Seq<BlockWrite>,
    data: Seq<u8>,
    pos: int,
) -> bool {
    &&& follows(before, now, writes)
    &&& 0 <= pos <= data.len()
    &&& written_bytes(writes) + now.held() == before.held() + data.subrange(0, pos)
}

proof fn lemma_fill_frame(r1: Seq<MemRegion>, r2: Seq<MemRegion>, i: int, k: int)
    requires
        r1.len() == r2.len(),
        forall|m: int| i <= m < r1.len() ==> r1[m] == r2[m],
    ensures
        fill_addr(r1, i, k) == fill_addr(r2, i, k),
    decreases r1.len() - i,
{
    if 0 <= i < r1.len() && k >= r1[i].remaining() {
        lemma_fill_frame(r1, r2, i + 1, k - r1[i].remaining());
    }
}

proof fn lemma_space_frame(r1: Seq<MemRegion>, r2: Seq<MemRegion>, i: int, n: int)
    requires
        forall|m: int| i <= m < n ==> r1[m] == r2[m],
    ensures
        space(r1, i, n) == space(r2, i, n),
    decreases n - i,
{
    if i < n {
        lemma_space_frame(r1, r2, i + 1, n);
    }
}

/// Dropping `a` bytes from the front of region `i` moves the fill position by `a`.
proof fn lemma_advance_region(r: Seq<MemRegion>, i: int, nr: MemRegion, a: int)
    requires
        0 <= i < r.len(),
        r[i].advanced_by(nr, a),
        0 <= a <= r[i].remaining(),
    ensures
        forall|k: int|
            k >= 0 ==> #[trigger] fill_addr(r.update(i, nr), i, k) == fill_addr(r, i, a + k),
        space(r.update(i, nr), i, r.len() as int) + a == space(r, i, r.len() as int),
{
    let u = r.update(i, nr);
    assert forall|k: int| k >= 0 implies #[trigger] fill_addr(u, i, k) == fill_addr(r, i, a + k) by {
        if k >= nr.remaining() {
            lemma_fill_frame(u, r, i + 1, k - nr.remaining());
        }
    }
    lemma_space_frame(u, r, i + 1, r.len() as int);
}

proof fn lemma_space_nonneg(r: Seq<MemRegion>, i: int, n: int)
    requires
        0 <= i,
        n <= r.len(),
        forall|b: int| 0 <= b < r.len() ==> #[trigger] r[b].wf(),
    ensures
        space(r, i, n) >= 0,
    decreases n - i,
{
    if i < n {
        assert(r[i].wf());
        lemma_space_nonneg(r, i + 1, n);
    }
}

proof fn lemma_written_push(ws: Seq<BlockWrite>, w: BlockWrite)
    ensures
        written_bytes(ws.push(w)) == written_bytes(ws) + w.data@,
{
    assert(ws.push(w).drop_last() =~= ws);
}

/// After appending `w`, the earlier writes still land as they did, and `w` lands
/// if it is a whole number of units that `cur` takes at the fill position.
proof fn lemma_lands_push(before: MemoryTraversal, ws: Seq<BlockWrite>, w: BlockWrite)
    requires
        forall|j: int| 0 <= j < ws.len() ==> #[trigger] write_lands(before, ws, j),
        0 <= w.block < before.regions().len(),
        w.region.wf(),
        before.regions()[w.block as int].advanced_by(w.region, w.region.lo() - before.regions()[w.block as int].lo()),
        w.data@.len() as int % w.region.unit() == 0,
        w.data@.len() <= w.region.remaining(),
        forall|k: int|
            written_bytes(ws).len() <= k < written_bytes(ws).len() + w.data@.len()
                ==> #[trigger] fill_addr(before.regions(), before.cursor(), k)
                == w.region.lo() + (k - written_bytes(ws).len()),
    ensures
        forall|j: int| 0 <= j < ws.push(w).len() ==> #[trigger] write_lands(before, ws.push(w), j),
{
    let ws2 = ws.push(w);
    assert forall|j: int| 0 <= j < ws2.len() implies #[trigger] write_lands(before, ws2, j) by {
        if j < ws.len() {
            assert(ws2.subrange(0, j) =~= ws.subrange(0, j));
            assert(write_lands(before, ws, j));
            assert(ws2[j] == ws[j]);
        } else {
            assert(ws2.subrange(0, j) =~= ws);
        }
    }
}

pub(crate) proof fn lemma_multiples_add(a: int, b: int, u: int)
    requires
        u > 0,
        a % u == 0,
        b % u == 0,
    ensures
        (a + b) % u == 0,
{
    vstd::arithmetic::div_mod::lemma_fundamental_div_mod(a, u);
    vstd::arithmetic::div_mod::lemma_fundamental_div_mod(b, u);
    vstd::arithmetic::mul::lemma_mul_is_distributive_add(u, a / u, b / u);
    vstd::arithmetic::mul::lemma_mul_is_commutative(u, a / u + b / u);
    vstd::arithmetic::div_mod::lemma_mod_multiples_basic(a / u + b / u, u);
}

proof fn lemma_round_down(x: int, m: int)
    requires
        x >= 0,
        m > 0,
    ensures
        (x - x % m) % m == 0,
        0 <= x - x % m <= x,
        x % m < m,
{
    vstd::arithmetic::div_mod::lemma_fundamental_div_mod(x, m);
    vstd::arithmetic::div_mod::lemma_mod_multiples_basic(x / m, m);
    vstd::arithmetic::mul::lemma_mul_is_commutative(x / m, m);
}

/// Appends `src[from..to]` to `dst`.
fn push_range(dst: &mut Vec<u8>, src: &[u8], from: usize, to: usize)
    requires
        from <= to <= src@.len(),
    ensures
        final(dst)@ == old(dst)@ + src@.subrange(from as int, to as int),
{
    let ghost d0 = dst@;
    let mut i = from;
    while i < to
        invariant
            from <= i <= to <= src@.len(),
            dst@ == d0 + src@.subrange(from as int, i as int),
        decreases to - i,
    {
        dst.push(src[i]);
        assert(src@.subrange(from as int, i + 1) =~= src@.subrange(from as int, i as int).push(src@[i as int]));
        i = i + 1;
    }
}


/// Bytes of RRAM kept after the start of the baremetal image for the image itself.
pub const BAREMETAL_IMAGE_RESERVED: usize = 102400;

/// Each scratch area, given as a start and a length, is word aligned and lies in the
/// 32-bit address space.
pub open spec fn scratch_areas_ok(areas: Seq<(usize, usize)>) -> bool {
    forall|i: int|
        0 <= i < areas.len() ==> {
            &&& #[trigger] areas[i].0 % 4 == 0
            &&& areas[i].1 % 4 == 0
            &&& areas[i].0 + areas[i].1 <= u32::MAX
        }
}

/// `t` is a fresh traversal of the erased area: the RRAM that follows the
/// baremetal image (the RRAM array being mapped at `reram_base`), then each of the
/// `scratch` areas, given as start address and length.
pub open spec fn erased_area(t: MemoryTraversal, reram_base: usize, scratch: Seq<(usize, usize)>) -> bool {
    &&& ready(t)
    &&& t.cursor() == cursor_at(t.regions(), 0, 0)
    &&& t.held().len() == 0
    &&& t.regions().len() == scratch.len() + 1
    &&& t.regions()[0] matches MemRegion::Reram(r) && r.base() == reram_base
    &&& t.regions()[0].lo() == reram_first_free(BAREMETAL_IMAGE_RESERVED as int)
    &&& t.regions()[0].hi() == reram_base + rram_storage_bytes()
    &&& forall|i: int|
        0 <= i < scratch.len() ==> {
            &&& #[trigger] t.regions()[i + 1] is Generic
            &&& t.regions()[i + 1].lo() == scratch[i].0
            &&& t.regions()[i + 1].hi() == scratch[i].0 + scratch[i].1
        }
}

impl MemoryTraversal {
    /// A traversal that fills `blocks` in order, starting with the first.
    pub fn from_blocks(blocks: Vec<MemRegion>) -> (t: Self)
        requires
            blocks@.len() > 0,
            forall|b: int| 0 <= b < blocks@.len() ==> #[trigger] blocks@[b].wf(),
        ensures
            t.wf(),
            t.regions() == blocks@,
            t.cursor() == cursor_at(blocks@, 0, 0),
            t.held().len() == 0,
            !t.after_unit(),
            aligned_from(blocks@, 0) ==> ready(t),
    {
        let mut max_min_update = blocks[0].min_update_size();
        let mut i: usize = 1;
        while i < blocks.len()
            invariant
                1 <= i <= blocks@.len(),
            decreases blocks.len() - i,
        {
            let m = blocks[i].min_update_size();
            if m > max_min_update {
                max_min_update = m;
            }
            i = i + 1;
        }
        let mut t = MemoryTraversal {
            idx: 0,
            pending: Vec::with_capacity(max_min_update),
            blocks,
            flushed: false,
        };
        t.settle();
        proof {
            lemma_skip_empty(t.regions(), 0, 0);
            let c = t.cursor();
            assert(t.regions()[c].wf());
            assert(t.regions()[c].unit() == 4 || t.regions()[c].unit() == 32);
        }
        t
    }

    /// The erased area of the chip: the RRAM that follows the baremetal image (the
    /// RRAM array being mapped at `reram_base`), then each of the `scratch` areas,
    /// given as start address and length.
    pub fn new(reram_base: usize, scratch: &[(usize, usize)]) -> (t: Self)
        requires
            reram_base + rram_storage_bytes() <= u32::MAX,
            reram_first_free(BAREMETAL_IMAGE_RESERVED as int) <= reram_base + rram_storage_bytes(),
            (reram_base + rram_storage_bytes()) % 32 == 0,
            scratch_areas_ok(scratch@),
        ensures
            erased_area(t, reram_base, scratch@),
    {
        let mut blocks: Vec<MemRegion> = Vec::new();
        blocks.push(MemRegion::Reram(ReramRegion::new(BAREMETAL_IMAGE_RESERVED, reram_base)));
        let mut i: usize = 0;
        while i < scratch.len()
            invariant
                i <= scratch@.len(),
                scratch_areas_ok(scratch@),
                blocks@.len() == i + 1,
                blocks@[0] matches MemRegion::Reram(r) && r.base() == reram_base,
                blocks@[0].lo() == reram_first_free(BAREMETAL_IMAGE_RESERVED as int),
                blocks@[0].hi() == reram_base + rram_storage_bytes(),
                forall|b: int| 0 <= b < blocks@.len() ==> #[trigger] blocks@[b].wf(),
                forall|j: int|
                    0 <= j < i ==> {
                        &&& #[trigger] blocks@[j + 1] is Generic
                        &&& blocks@[j + 1].lo() == scratch@[j].0
                        &&& blocks@[j + 1].hi() == scratch@[j].0 + scratch@[j].1
                    },
            decreases scratch.len() - i,
        {
            let (start, len) = scratch[i];
            assert(scratch@[i as int].0 % 4 == 0);
            blocks.push(MemRegion::Generic(GenericMemRegion::new(start, len)));
            i = i + 1;
        }
        proof {
            let lo = blocks@[0].lo();
            let hi = blocks@[0].hi();
            assert(lo % 32 == 0 && hi % 32 == 0);
            vstd::arithmetic::div_mod::lemma_fundamental_div_mod(lo, 32);
            vstd::arithmetic::div_mod::lemma_mod_multiples_vanish(-(lo / 32), hi, 32);
            assert(aligned_from(blocks@, 0)) by {
                assert forall|b: int| 0 <= b < blocks@.len() implies #[trigger] blocks@[b].remaining()
                    % blocks@[b].unit() == 0 by {
                    if b > 0 {
                        assert(blocks@[(b - 1) + 1] is Generic);
                        assert(scratch@[b - 1].1 % 4 == 0);
                    }
                }
            }
        }
        Self::from_blocks(blocks)
    }

    /// Bytes that can still be written.
    pub fn len(&self) -> (r: usize)
        requires
            self.wf(),
            self.capacity() <= usize::MAX,
        ensures
            r == self.capacity(),
    {
        let n = self.blocks.len();
        let mut total: usize = 0;
        let mut i = self.idx;
        while i < n
            invariant
                self.wf(),
                self.capacity() <= usize::MAX,
                n == self.regions().len(),
                self.cursor() <= i <= n,
                total + space(self.regions(), i as int, n as int) == self.capacity(),
            decreases n - i,
        {
            proof {
                lemma_space_nonneg(self.regions(), i + 1, n as int);
                assert(self.regions()[i as int].wf());
            }
            total = total + self.blocks[i].len();
            i = i + 1;
        }
        total
    }

    /// Whether the bytes that can still be written can be counted in a `usize`.
    pub fn len_fits(&self) -> (r: bool)
        requires
            self.wf(),
        ensures
            r == (self.capacity() <= usize::MAX),
    {
        let n = self.blocks.len();
        let mut total: usize = 0;
        let mut i = self.idx;
        while i < n
            invariant
                self.wf(),
                n == self.regions().len(),
                self.cursor() <= i <= n,
                total + space(self.regions(), i as int, n as int) == self.capacity(),
            decreases n - i,
        {
            proof {
                lemma_space_nonneg(self.regions(), i + 1, n as int);
                assert(self.regions()[i as int].wf());
            }
            let more = self.blocks[i].len();
            if total > usize::MAX - more {
                return false;
            }
            total = total + more;
            i = i + 1;
        }
        true
    }

    /// Whether `len` more bytes fit: with the held bytes they leave less than a unit
    /// of the last region over once every region is full.
    pub fn has_room_for(&self, len: usize) -> (r: bool)
        requires
            self.wf(),
        ensures
            r == (self.held().len() + len < self.capacity() + last_unit(*self)),
            r == (self.held().len() + len < self.capacity() + self.regions().last().unit()),
    {
        let n = self.blocks.len();
        let mut total: u128 = 0;
        let mut i = self.idx;
        while i < n
            invariant
                self.wf(),
                n == self.regions().len(),
                self.cursor() <= i <= n,
                total + space(self.regions(), i as int, n as int) == self.capacity(),
                total <= (i as int) * 0x1_0000_0000,
            decreases n - i,
        {
            proof {
                assert(self.regions()[i as int].wf());
            }
            let more = self.blocks[i].len();
            total = total + more as u128;
            i = i + 1;
        }
        let last = self.blocks[n - 1].min_update_size();
        (self.pending.len() as u128) + (len as u128) < total + (last as u128)
    }

    /// Address the next byte is written to.
    pub fn peek(&self) -> (r: u32)
        requires
            self.wf(),
        ensures
            r == self.current().lo(),
    {
        self.blocks[self.idx].start()
    }

    /// Moves on to the next region, unless this is the last.
    pub fn advance_block(&mut self) -> (r: Result<(), EraseError>)
        requires
            old(self).wf(),
        ensures
            final(self).wf(),
            final(self).regions() == old(self).regions(),
            final(self).held() == old(self).held(),
            old(self).cursor() < old(self).regions().len() - 1 ==> r == Ok::<(), EraseError>(())
                && final(self).cursor() == old(self).cursor() + 1,
            old(self).cursor() == old(self).regions().len() - 1 ==> r == Err::<(), EraseError>(
                EraseError::OutOfMemory,
            ) && final(self).cursor() == old(self).cursor(),
    {
        if self.idx < self.blocks.len() - 1 {
            self.idx = self.idx + 1;
            Ok(())
        } else {
            Err(EraseError::OutOfMemory)
        }
    }

    /// The regions, in the order they are filled.
    pub fn all_blocks(&self) -> (r: &[MemRegion])
        ensures
            r@ == self.regions(),
    {
        self.blocks.as_slice()
    }
}


/// What one step of writing `data` from `pos` on decides, from `before`, leaving
/// `after`.  Right after a unit completed from held bytes was written, write as
/// many whole units of the data as the data and the region being filled have room
/// for, none if that is all (an empty write).  Otherwise: hold what is left when
/// it does not make a whole unit with the held bytes; fail when the region being
/// filled is full (it is then the last); else write at the region being filled
/// either the held bytes completed to one unit, or, with nothing held, as many
/// whole units of the data as the data and the region have room for.
pub open spec fn stepped(
    before: MemoryTraversal,
    after: MemoryTraversal,
    data: Seq<u8>,
    pos: int,
    step: WriteStep,
) -> bool {
    let h = before.held();
    let rest = data.len() - pos;
    let cur = before.current();
    let m = cur.unit();
    &&& after.regions() == before.regions()
    &&& after.cursor() == before.cursor()
    &&& !after.after_unit()
    &&& if before.after_unit() {
        step matches WriteStep::Write { block, region, data: bytes, next } && {
            &&& block == before.cursor()
            &&& region == cur
            &&& pos <= next <= data.len()
            &&& bytes@ == data.subrange(pos, next as int)
            &&& bytes@.len() == whole_units(min(rest, cur.remaining()), m)
            &&& after.held() == h
        }
    } else if h.len() + rest < m {
        step is Held && after.held() == h + data.subrange(pos, data.len() as int)
    } else if cur.remaining() == 0 {
        (step matches WriteStep::Failed(e) && e == EraseError::OutOfMemory) && after.held() == h
    } else {
        step matches WriteStep::Write { block, region, data: bytes, next } && {
            &&& block == before.cursor()
            &&& region == cur
            &&& pos <= next <= data.len()
            &&& if h.len() > 0 {
                &&& bytes@ == h + data.subrange(pos, next as int)
                &&& bytes@.len() == m
                &&& after.held() == bytes@
            } else {
                &&& bytes@ == data.subrange(pos, next as int)
                &&& bytes@.len() == whole_units(min(rest, cur.remaining()), m)
                &&& after.held() == h
            }
        }
    }
}

/// Regions with nothing left that filling passes over hold no byte of the stream.
proof fn lemma_fill_skip(r: Seq<MemRegion>, j: int, k: int)
    requires
        0 <= j < r.len(),
        all_wf(r),
        k >= 0,
    ensures
        fill_addr(r, j, k) == fill_addr(r, cursor_at(r, j, 0), k),
        space(r, j, r.len() as int) == space(r, cursor_at(r, j, 0), r.len() as int),
    decreases r.len() - j,
{
    assert(r[j].wf());
    if j + 1 < r.len() && 0 >= r[j].remaining() {
        lemma_fill_skip(r, j + 1, k);
    }
}

impl MemoryTraversal {
    /// Moves the fill position past regions with nothing left, but not past the last.
    fn settle(&mut self)
        requires
            old(self).wf(),
        ensures
            final(self).regions() == old(self).regions(),
            final(self).held() == old(self).held(),
            final(self).after_unit() == old(self).after_unit(),
            final(self).cursor() == cursor_at(old(self).regions(), old(self).cursor(), 0),
            final(self).wf(),
    {
        let ghost c0 = self.cursor();
        proof {
            lemma_skip_empty(self.regions(), c0, 0);
        }
        loop
            invariant
                self.wf(),
                self.regions() == old(self).regions(),
                self.held() == old(self).held(),
                self.after_unit() == old(self).after_unit(),
                old(self).cursor() <= self.cursor(),
                cursor_at(self.regions(), self.cursor(), 0) == cursor_at(self.regions(), c0, 0),
                c0 == old(self).cursor(),
            ensures
                cursor_at(self.regions(), self.cursor(), 0) == self.cursor(),
                self.wf(),
                self.regions() == old(self).regions(),
                self.held() == old(self).held(),
                self.after_unit() == old(self).after_unit(),
                cursor_at(self.regions(), self.cursor(), 0) == cursor_at(self.regions(), c0, 0),
            decreases self.regions().len() - self.cursor(),
        {
            if self.idx >= self.blocks.len() - 1 {
                break;
            }
            assert(self.regions()[self.cursor()].wf());
            if self.blocks[self.idx].len() != 0 {
                break;
            }
            self.idx = self.idx + 1;
        }
        assert(cursor_at(self.regions(), self.cursor(), 0) == self.cursor());
    }

    /// Decides the next step of writing `data` from `pos` on.  A write is not
    /// counted until `write_done` reports it; until then the held bytes it
    /// contains stay held.
    pub fn write_step(&mut self, data: &[u8], pos: usize) -> (step: WriteStep)
        requires
            ready(*old(self)),
            pos <= data@.len(),
        ensures
            stepped(*old(self), *final(self), data@, pos as int, step),
            final(self).wf(),
    {
        let cur = self.blocks[self.idx];
        assert(self.regions()[self.cursor()].wf());
        let m = cur.min_update_size();
        let len = data.len();
        let rest = len - pos;
        let held = self.pending.len();
        let after_unit = self.flushed;
        self.flushed = false;
        if !after_unit && rest < m - held {
            push_range(&mut self.pending, data, pos, len);
            return WriteStep::Held;
        }
        if !after_unit && cur.len() == 0 {
            return WriteStep::Failed(EraseError::OutOfMemory);
        }
        if held != 0 {
            let need = m - held;
            push_range(&mut self.pending, data, pos, pos + need);
            let mut bytes: Vec<u8> = Vec::new();
            let n = self.pending.len();
            push_range(&mut bytes, self.pending.as_slice(), 0, n);
            assert(self.pending@.subrange(0, n as int) =~= self.pending@);
            assert(bytes@ =~= self.pending@);
            return WriteStep::Write { block: self.idx, region: cur, data: bytes, next: pos + need };
        }
        let space_left = cur.len();
        let cutoff = if space_left < rest {
            space_left
        } else {
            rest
        };
        proof {
            assert(m == 4 || m == 32);
            lemma_round_down(cutoff as int, m as int);
        }
        let aligned = cutoff - cutoff % m;
        let mut bytes: Vec<u8> = Vec::new();
        push_range(&mut bytes, data, pos, pos + aligned);
        assert(Seq::<u8>::empty() + data@.subrange(pos as int, pos + aligned) =~= data@.subrange(
            pos as int,
            pos + aligned,
        ));
        WriteStep::Write { block: self.idx, region: cur, data: bytes, next: pos + aligned }
    }

    /// Reports that the write of `written` bytes that `write_step` decided has been
    /// made: the region being filled drops them, the held bytes are gone, and the
    /// fill position moves past regions with nothing left.
    pub fn write_done(&mut self, written: usize)
        requires
            old(self).wf(),
            aligned_from(old(self).regions(), old(self).cursor()),
            written <= old(self).current().remaining(),
            written as int % old(self).current().unit() == 0,
            old(self).held().len() == 0 || old(self).held().len() == written,
        ensures
            final(self).regions() == old(self).regions().update(
                old(self).cursor(),
                old(self).current().skipped(written as int),
            ),
            final(self).cursor() == cursor_at(final(self).regions(), old(self).cursor(), 0),
            final(self).held().len() == 0,
            final(self).after_unit() == (old(self).held().len() > 0),
            ready(*final(self)),
    {
        let was_held = self.pending.len() > 0;
        let ghost r0 = self.regions();
        let ghost c = self.cursor();
        let mut cur = self.blocks[self.idx];
        assert(r0[c].wf());
        let r = cur.advance(written);
        assert(r is Ok);
        self.blocks.set(self.idx, cur);
        self.pending.clear();
        self.flushed = was_held;
        proof {
            r0[c].lemma_skipped(written as int);
            assert forall|b: int| 0 <= b < self.regions().len() implies #[trigger] self.regions()[b].wf() by {
                assert(r0[b].wf());
            }
        }
        self.settle();
        proof {
            let r2 = self.regions();
            let m = r0[c].unit();
            assert(m == 4 || m == 32);
            lemma_skip_empty(r2, c, 0);
            assert forall|b: int| self.cursor() <= b < r2.len() implies #[trigger] r2[b].remaining()
                % r2[b].unit() == 0 by {
                if b == c {
                    assert(r0[c].remaining() % m == 0);
                    vstd::arithmetic::div_mod::lemma_fundamental_div_mod(written as int, m);
                    vstd::arithmetic::div_mod::lemma_mod_multiples_vanish(-(written as int / m), r0[c].remaining(), m);
                    assert(m * (-(written as int / m)) + r0[c].remaining() == r0[c].remaining() - written) by (nonlinear_arith)
                        requires written as int == m * (written as int / m) + written as int % m, written as int % m == 0;
                } else {
                    assert(r0[b].remaining() % r0[b].unit() == 0);
                }
            }
        }
    }

    /// Adds the write of `bytes` at the region being filled to `writes` and reports
    /// it done.
    fn record_write(
        &mut self,
        writes: &mut Vec<BlockWrite>,
        block: usize,
        region: MemRegion,
        bytes: Vec<u8>,
        Ghost(before): Ghost<MemoryTraversal>,
    )
        requires
            follows(before, *old(self), old(writes)@),
            aligned_from(old(self).regions(), old(self).cursor()),
            block == old(self).cursor(),
            region == old(self).current(),
            bytes@.len() <= region.remaining(),
            bytes@.len() as int % region.unit() == 0,
            old(self).held().len() == 0 || old(self).held().len() == bytes@.len(),
        ensures
            follows(before, *final(self), final(writes)@),
            written_bytes(final(writes)@) == written_bytes(old(writes)@) + bytes@,
            final(self).regions() == old(self).regions().update(
                old(self).cursor(),
                old(self).current().skipped(bytes@.len() as int),
            ),
            final(self).cursor() == cursor_at(final(self).regions(), old(self).cursor(), 0),
            final(self).held().len() == 0,
            final(self).after_unit() == (old(self).held().len() > 0),
            ready(*final(self)),
    {
        let n = bytes.len();
        let ghost ws0 = writes@;
        let ghost r0 = self.regions();
        let ghost i0 = self.cursor();
        let ghost off = written_bytes(ws0).len() as int;
        let w = BlockWrite { block, region, data: bytes };
        proof {
            assert(r0[i0].wf());
            lemma_written_push(ws0, w);
            assert forall|k: int| off <= k < off + w.data@.len() implies #[trigger] fill_addr(
                before.regions(),
                before.cursor(),
                k,
            ) == w.region.lo() + (k - off) by {
                assert(fill_addr(r0, i0, k - off) == fill_addr(
                    before.regions(),
                    before.cursor(),
                    off + (k - off),
                ));
            }
            assert(before.regions()[i0].advanced_by(r0[i0], r0[i0].lo() - before.regions()[i0].lo()));
            lemma_lands_push(before, ws0, w);
        }
        writes.push(w);
        self.write_done(n);
        proof {
            let r2 = self.regions();
            let next = r0[i0].skipped(n as int);
            r0[i0].lemma_skipped(n as int);
            lemma_advance_region(r0, i0, next, n as int);
            assert(r2 == r0.update(i0, next));
            assert(all_wf(r2)) by {
                assert forall|b: int| 0 <= b < r2.len() implies #[trigger] r2[b].wf() by {
                    assert(r0[b].wf());
                }
            }
            lemma_skip_empty(r2, i0, 0);
            assert forall|k: int| k >= 0 implies #[trigger] fill_addr(
                self.regions(),
                self.cursor(),
                k,
            ) == fill_addr(before.regions(), before.cursor(), written_bytes(writes@).len() + k) by {
                lemma_fill_skip(r2, i0, k);
                assert(fill_addr(r0, i0, n + k) == fill_addr(
                    before.regions(),
                    before.cursor(),
                    off + (n + k),
                ));
            }
            lemma_fill_skip(r2, i0, 0);
            assert forall|b: int| 0 <= b < before.regions().len() implies #[trigger] before.regions()[b].advanced_by(
                self.regions()[b],
                self.regions()[b].lo() - before.regions()[b].lo(),
            ) by {
                assert(before.regions()[b].advanced_by(r0[b], r0[b].lo() - before.regions()[b].lo()));
            }
            assert forall|b: int| 0 <= b < before.regions().len() implies before.regions()[b].lo()
                <= #[trigger] self.regions()[b].lo() && (self.regions()[b].lo() - before.regions()[b].lo())
                % before.regions()[b].unit() == 0 by {
                assert(before.regions()[b].lo() <= r0[b].lo());
                if b == i0 {
                    assert(before.regions()[b].unit() == 4 || before.regions()[b].unit() == 32);
                    lemma_multiples_add(r0[b].lo() - before.regions()[b].lo(), n as int, before.regions()[b].unit());
                }
            }
            assert forall|b: int| before.cursor() <= b < self.cursor() implies #[trigger] self.regions()[b].remaining() == 0 by {
                if b < i0 {
                    assert(r0[b].remaining() == 0);
                }
            }
            assert forall|j: int| 0 <= j < writes@.len() implies before.cursor() <= #[trigger] writes@[j].block
                <= self.cursor() by {
                if j < ws0.len() {
                    assert(writes@[j] == ws0[j]);
                }
            }
        }
    }

    /// The writes that writing `data` makes when every write succeeds, in order, and
    /// how the call ends; the traversal is left as those writes leave it.
    pub fn write_slice(&mut self, data: &[u8]) -> (plan: WritePlan)
        requires
            ready(*old(self)),
        ensures
            planned(*old(self), *final(self), data@, plan),
    {
        let ghost before = *self;
        let ghost r0 = self.regions();
        let ghost i0 = self.cursor();
        let ghost stream = before.held() + data@;
        let mut writes: Vec<BlockWrite> = Vec::new();
        let mut pos: usize = 0;
        proof {
            assert(written_bytes(writes@) =~= Seq::<u8>::empty());
            assert(data@.subrange(0, 0) =~= Seq::<u8>::empty());
            assert(self.held() + Seq::<u8>::empty() =~= self.held());
            assert forall|b: int| 0 <= b < before.regions().len() implies
                (#[trigger] self.regions()[b].lo() - before.regions()[b].lo()) % before.regions()[b].unit() == 0 by {
                assert(before.regions()[b].unit() == 4 || before.regions()[b].unit() == 32);
            }
            assert(cursor_at(r0, i0, 0) == i0);
            lemma_space_nonneg(r0, i0, r0.len() as int);
        }
        loop
            invariant
                before == *old(self),
                r0 == before.regions(),
                i0 == before.cursor(),
                stream == before.held() + data@,
                ready(*self),
                taking(before, *self, writes@, data@, pos as int),
                self.regions() == filled(r0, i0, written_bytes(writes@).len() as int),
                self.cursor() == cursor_at(r0, i0, written_bytes(writes@).len() as int),
                written_bytes(writes@).len() + greedy(
                    self.regions(),
                    self.cursor(),
                    self.held().len() + (data@.len() - pos),
                ) == greedy(r0, i0, stream.len() as int),
                written_bytes(writes@).len() == 0 ==> self.held() == before.held() && pos == 0,
                written_bytes(writes@).len() > 0 ==> self.held().len() == 0,
            decreases data@.len() - pos, self.held().len(), if self.after_unit() { 1int } else { 0int },
        {
            let ghost w0 = written_bytes(writes@).len() as int;
            let ghost h0 = self.held();
            let ghost a0 = self.held().len() + (data@.len() - pos);
            let ghost s0 = *self;
            let step = self.write_step(data, pos);
            match step {
                WriteStep::Held => {
                    proof {
                        let wb = written_bytes(writes@);
                        let s1 = data@.subrange(0, pos as int);
                        let s2 = data@.subrange(pos as int, data@.len() as int);
                        assert(wb + (h0 + s2) =~= (wb + h0) + s2);
                        assert((before.held() + s1) + s2 =~= before.held() + (s1 + s2));
                        assert(s1 + s2 =~= data@.subrange(0, data@.len() as int));
                        assert(data@.subrange(0, data@.len() as int) =~= data@);
                        assert(greedy(self.regions(), self.cursor(), a0) == 0);
                        assert(wb + self.held() == stream);
                        assert(stream.subrange(0, w0) =~= wb);
                        assert(stream.subrange(w0, stream.len() as int) =~= self.held());
                    }
                    return WritePlan { writes, taken: data.len(), result: Ok(()) };
                },
                WriteStep::Failed(e) => {
                    proof {
                        assert(greedy(self.regions(), self.cursor(), a0) == 0);
                        lemma_space_nonneg(self.regions(), self.cursor() + 1, self.regions().len() as int);
                        assert(self.capacity() == 0);
                        let wb = written_bytes(writes@);
                        assert(wb + self.held() == before.held() + data@.subrange(0, pos as int));
                        assert(stream.subrange(0, w0) =~= wb) by {
                            assert(stream.subrange(0, w0) =~= (before.held() + data@.subrange(0, pos as int)).subrange(0, w0));
                        }
                        let n = self.regions().len() - 1;
                        assert(self.cursor() == n);
                        assert(before.regions()[n].advanced_by(
                            self.regions()[n],
                            self.regions()[n].lo() - before.regions()[n].lo(),
                        ));
                        assert(last_unit(before) == self.current().unit());
                        if w0 > 0 {
                            assert(pos == w0 - before.held().len());
                        }
                    }
                    return WritePlan { writes, taken: pos, result: Err(e) };
                },
                WriteStep::Write { block, region, data: bytes, next } => {
                    let ghost k = bytes@.len() as int;
                    let ghost c = self.cursor();
                    let ghost f = self.regions();
                    proof {
                        let m = region.unit();
                        assert(m == 4 || m == 32);
                        assert(f[c].wf());
                        assert(f[c].remaining() % m == 0);
                        lemma_space_unfold_rem(f, c);
                        assert(k <= f[c].remaining()) by {
                            if s0.after_unit() || h0.len() == 0 {
                                lemma_round_down(min(data@.len() - pos, f[c].remaining()), m);
                            } else {
                                let x = f[c].remaining();
                                assert(x >= m) by (nonlinear_arith)
                                    requires
                                        x > 0,
                                        m > 0,
                                        x % m == 0,
                                ;
                            }
                        }
                        assert(w0 + k <= space(r0, i0, r0.len() as int)) by {
                            assert(self.capacity() + w0 == before.capacity());
                        }
                        lemma_fill_compose(r0, i0, w0, k);
                        if k == 0 {
                            f[c].lemma_skipped(0);
                            assert(f.update(c, f[c].skipped(0)) =~= f);
                            assert(cursor_at(f, c, 0) == c);
                        } else {
                            let x = min(a0, f[c].remaining());
                            lemma_round_down(x, m);
                            if x < m {
                                lemma_whole_units_small(x, m);
                                if h0.len() == 0 {
                                    assert(k == whole_units(x, m));
                                }
                            }
                            assert(x >= m);
                            assert(whole_units(x, m) >= m) by {
                                vstd::arithmetic::div_mod::lemma_fundamental_div_mod(x, m);
                                assert(x - x % m >= m) by (nonlinear_arith)
                                    requires x >= m, m > 0, x == m * (x / m) + x % m, 0 <= x % m < m;
                            }
                            if h0.len() == 0 {
                                lemma_round_down(min(data@.len() - pos, f[c].remaining()), m);
                            } else {
                                assert(m % m == 0);
                            }
                            lemma_greedy_step(f, c, a0, k);
                        }
                    }
                    let ghost ws0 = writes@;
                    let ghost bytes_v = bytes@;
                    self.record_write(&mut writes, block, region, bytes, Ghost(before));
                    pos = next;
                    proof {
                        let f2 = self.regions();
                        if k > 0 {
                            assert(filled(f, c, k) == f.update(c, f[c].skipped(k)));
                            lemma_step_cursor(f, c, k);
                        }
                        let s1 = data@.subrange(0, pos as int);
                        if h0.len() > 0 {
                            let sa = data@.subrange(0, (pos - (k - h0.len())) as int);
                            let sb = data@.subrange((pos - (k - h0.len())) as int, pos as int);
                            assert(sa + sb =~= s1);
                            assert(written_bytes(ws0) + h0 == before.held() + sa);
                            assert(written_bytes(ws0) + (h0 + sb) =~= (written_bytes(ws0) + h0) + sb);
                            assert((before.held() + sa) + sb =~= before.held() + (sa + sb));
                        } else {
                            let sa = data@.subrange(0, (pos - k) as int);
                            let sb = data@.subrange((pos - k) as int, pos as int);
                            assert(sa + sb =~= s1);
                            assert(written_bytes(ws0) + Seq::<u8>::empty() =~= written_bytes(ws0));
                            assert((before.held() + sa) + sb =~= before.held() + (sa + sb));
                        }
                        assert(self.held() =~= Seq::<u8>::empty());
                        assert(written_bytes(writes@) + self.held() =~= written_bytes(writes@));
                    }
                },
            }
        }
    }
}

} // verus!
