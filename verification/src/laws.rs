//! Properties that hold across calls.
use vstd::prelude::*;

use crate::error::EraseError;
use crate::region::{round_up, write_check};
use crate::fill::{greedy, lemma_fill_compose, lemma_greedy_compose, lemma_space_unfold};
use crate::region::MemRegion;
use crate::erasure::Erasure;
use crate::traversal::{
    ready, last_unit, lemma_multiples_add, space, erased_area, fill_addr, follows, planned, scratch_areas_ok, write_lands, written_bytes,
    stepped, BlockWrite, MemoryTraversal, WritePlan, WriteStep,
};

verus! {

proof fn lemma_written_concat(a: Seq<BlockWrite>, b: Seq<BlockWrite>)
    ensures
        written_bytes(a + b) == written_bytes(a) + written_bytes(b),
    decreases b.len(),
{
    if b.len() == 0 {
        assert(a + b =~= a);
        assert(written_bytes(a) + written_bytes(b) =~= written_bytes(a));
    } else {
        lemma_written_concat(a, b.drop_last());
        assert((a + b).drop_last() =~= a + b.drop_last());
        assert((a + b).last() == b.last());
        assert(written_bytes(a) + written_bytes(b.drop_last()) + b.last().data@ =~= written_bytes(a) + (
        written_bytes(b.drop_last()) + b.last().data@));
    }
}

/// Writing through a traversal in several calls is writing the concatenated data
/// in one: if the writes `w1` took `s0` to `s1`, writing `stream1` after what `s0`
/// held, then after one more call that writes `d2` the writes of both, in order,
/// take `s0` to `s2` (each lands where filling `s0` puts its bytes), and the bytes
/// written by both and then held are what `s0` held, `stream1` and the data taken
/// by the last call.
pub proof fn law_writes_compose(
    s0: MemoryTraversal,
    s1: MemoryTraversal,
    s2: MemoryTraversal,
    w1: Seq<BlockWrite>,
    stream1: Seq<u8>,
    d2: Seq<u8>,
    p2: WritePlan,
)
    requires
        follows(s0, s1, w1),
        written_bytes(w1) + s1.held() == s0.held() + stream1,
        planned(s1, s2, d2, p2),
    ensures
        follows(s0, s2, w1 + p2.writes@),
        written_bytes(w1 + p2.writes@) + s2.held() == s0.held() + stream1 + d2.subrange(
            0,
            p2.taken as int,
        ),
{
    let w2 = p2.writes@;
    let w = w1 + w2;
    let n1 = written_bytes(w1).len() as int;
    lemma_written_concat(w1, w2);
    let n = s0.regions().len();
    assert forall|b: int| 0 <= b < n implies #[trigger] s0.regions()[b].advanced_by(
        s2.regions()[b],
        s2.regions()[b].lo() - s0.regions()[b].lo(),
    ) by {
        assert(s0.regions()[b].advanced_by(s1.regions()[b], s1.regions()[b].lo() - s0.regions()[b].lo()));
        assert(s1.regions()[b].advanced_by(s2.regions()[b], s2.regions()[b].lo() - s1.regions()[b].lo()));
    }
    assert forall|b: int| 0 <= b < n implies s0.regions()[b].lo() <= #[trigger] s2.regions()[b].lo()
        && (s2.regions()[b].lo() - s0.regions()[b].lo()) % s0.regions()[b].unit() == 0 by {
        assert(s0.regions()[b].lo() <= s1.regions()[b].lo());
        assert(s1.regions()[b].lo() <= s2.regions()[b].lo());
        assert(s0.regions()[b].advanced_by(s1.regions()[b], s1.regions()[b].lo() - s0.regions()[b].lo()));
        assert(s0.regions()[b].unit() == 4 || s0.regions()[b].unit() == 32);
        lemma_multiples_add(
            s1.regions()[b].lo() - s0.regions()[b].lo(),
            s2.regions()[b].lo() - s1.regions()[b].lo(),
            s0.regions()[b].unit(),
        );
    }
    assert forall|k: int| k >= 0 implies #[trigger] fill_addr(s2.regions(), s2.cursor(), k) == fill_addr(
        s0.regions(),
        s0.cursor(),
        written_bytes(w).len() + k,
    ) by {
        assert(fill_addr(s2.regions(), s2.cursor(), k) == fill_addr(
            s1.regions(),
            s1.cursor(),
            written_bytes(w2).len() + k,
        ));
        assert(fill_addr(s1.regions(), s1.cursor(), written_bytes(w2).len() + k) == fill_addr(
            s0.regions(),
            s0.cursor(),
            n1 + (written_bytes(w2).len() + k),
        ));
    }
    assert forall|j: int| 0 <= j < w.len() implies #[trigger] write_lands(s0, w, j) by {
        if j < w1.len() {
            assert(w.subrange(0, j) =~= w1.subrange(0, j));
            assert(write_lands(s0, w1, j));
            assert(w[j] == w1[j]);
        } else {
            let j2 = j - w1.len();
            assert(write_lands(s1, w2, j2));
            assert(w[j] == w2[j2]);
            assert(w.subrange(0, j) =~= w1 + w2.subrange(0, j2));
            lemma_written_concat(w1, w2.subrange(0, j2));
            let x = w2[j2];
            let blk = x.block as int;
            let off2 = written_bytes(w2.subrange(0, j2)).len() as int;
            assert(s0.regions()[blk].advanced_by(s1.regions()[blk], s1.regions()[blk].lo() - s0.regions()[blk].lo()));
            assert(s0.regions()[blk].advanced_by(x.region, x.region.lo() - s0.regions()[blk].lo()));
            assert forall|k: int| n1 + off2 <= k < n1 + off2 + x.data@.len() implies #[trigger] fill_addr(
                s0.regions(),
                s0.cursor(),
                k,
            ) == x.region.lo() + (k - (n1 + off2)) by {
                assert(fill_addr(s1.regions(), s1.cursor(), k - n1) == x.region.lo() + ((k - n1) - off2));
                assert(fill_addr(s1.regions(), s1.cursor(), k - n1) == fill_addr(
                    s0.regions(),
                    s0.cursor(),
                    n1 + (k - n1),
                ));
            }
        }
    }
    assert forall|b: int| s0.cursor() <= b < s2.cursor() implies #[trigger] s2.regions()[b].remaining() == 0 by {
        if b < s1.cursor() {
            assert(s1.regions()[b].remaining() == 0);
            assert(s1.regions()[b].advanced_by(s2.regions()[b], s2.regions()[b].lo() - s1.regions()[b].lo()));
            assert(s1.regions()[b].lo() <= s2.regions()[b].lo());
            assert(s2.regions()[b].wf());
        }
    }
    assert forall|j: int| 0 <= j < w.len() implies s0.cursor() <= #[trigger] w[j].block <= s2.cursor() by {
        if j < w1.len() {
            assert(w[j] == w1[j]);
        } else {
            assert(w[j] == w2[j - w1.len()]);
        }
    }
    let a = written_bytes(w1);
    let b = written_bytes(w2);
    let t2 = d2.subrange(0, p2.taken as int);
    assert((a + b) + s2.held() =~= a + (b + s2.held()));
    assert(a + (s1.held() + t2) =~= (a + s1.held()) + t2);
}

/// Regions whose first unwritten address is a multiple of their write granularity
/// keep it so, whatever is written through the traversal.
pub proof fn law_alignment_kept(before: MemoryTraversal, now: MemoryTraversal, writes: Seq<BlockWrite>)
    requires
        follows(before, now, writes),
        forall|b: int|
            0 <= b < before.regions().len() ==> #[trigger] before.regions()[b].lo() % before.regions()[b].unit() == 0,
    ensures
        forall|b: int|
            0 <= b < now.regions().len() ==> #[trigger] now.regions()[b].lo() % now.regions()[b].unit() == 0,
{
    assert forall|b: int| 0 <= b < now.regions().len() implies #[trigger] now.regions()[b].lo()
        % now.regions()[b].unit() == 0 by {
        let r0 = before.regions()[b];
        let r1 = now.regions()[b];
        assert(r0.advanced_by(r1, r1.lo() - r0.lo()));
        assert(r0.lo() <= r1.lo());
        assert(r0.unit() == 4 || r0.unit() == 32);
        lemma_multiples_add(r0.lo(), r1.lo() - r0.lo(), r0.unit());
    }
}

/// A fresh erased area starts every region at a multiple of its write granularity.
pub proof fn law_erased_area_aligned(t: MemoryTraversal, reram_base: usize, scratch: Seq<(usize, usize)>)
    requires
        erased_area(t, reram_base, scratch),
        scratch_areas_ok(scratch),
    ensures
        forall|b: int| 0 <= b < t.regions().len() ==> #[trigger] t.regions()[b].lo() % t.regions()[b].unit() == 0,
{
    assert forall|b: int| 0 <= b < t.regions().len() implies #[trigger] t.regions()[b].lo() % t.regions()[b].unit()
        == 0 by {
        if b == 0 {
            let x = crate::soc::baremetal_start_addr() + crate::traversal::BAREMETAL_IMAGE_RESERVED;
            assert(round_up(x, 32) % 32 == 0) by {
                if x % 32 != 0 {
                    assert((x + (32 - x % 32)) % 32 == 0) by (nonlinear_arith)
                        requires x >= 0;
                }
            }
        } else {
            assert(t.regions()[(b - 1) + 1] is Generic);
            assert(scratch[b - 1].0 % 4 == 0);
        }
    }
}

/// While anything can still be written, the address `peek` reports is the one the
/// next byte written goes to.
pub proof fn law_peek_is_next_address(t: MemoryTraversal)
    requires
        ready(t),
        t.capacity() > 0,
    ensures
        fill_addr(t.regions(), t.cursor(), 0) == t.current().lo(),
{
    let n = t.regions().len() as int;
    lemma_space_unfold(t.regions(), t.cursor(), n);
    if t.current().remaining() <= 0 {
        assert(t.cursor() == n - 1);
        assert(t.current().wf());
    }
}

/// Writing `a` and then `b` leaves the regions, the fill position and (when the
/// second call succeeds) the held bytes as writing `a` followed by `b` in one call
/// does, writes the same bytes, and ends the same way.
pub proof fn law_split_write(
    s0: MemoryTraversal,
    s1: MemoryTraversal,
    s2: MemoryTraversal,
    t2: MemoryTraversal,
    a: Seq<u8>,
    b: Seq<u8>,
    p1: WritePlan,
    p2: WritePlan,
    p: WritePlan,
)
    requires
        ready(s0),
        planned(s0, s1, a, p1),
        planned(s1, s2, b, p2),
        planned(s0, t2, a + b, p),
        p1.result is Ok,
    ensures
        t2.regions() == s2.regions(),
        t2.cursor() == s2.cursor(),
        p.result is Ok <==> p2.result is Ok,
        p2.result is Ok ==> t2.held() == s2.held(),
        written_bytes(p1.writes@) + written_bytes(p2.writes@) == written_bytes(p.writes@),
{
    let r0 = s0.regions();
    let i0 = s0.cursor();
    let d1 = s0.held() + a;
    let d = s0.held() + (a + b);
    assert(d =~= d1 + b);
    let w1 = greedy(r0, i0, d1.len() as int);
    let d2 = s1.held() + b;
    assert(s1.held() == d1.subrange(w1, d1.len() as int));
    let w2 = greedy(s1.regions(), s1.cursor(), d2.len() as int);
    lemma_greedy_compose(r0, i0, d1.len() as int, b.len() as int);
    lemma_greedy_compose(r0, i0, d.len() as int, 0);
    lemma_greedy_compose(s1.regions(), s1.cursor(), d2.len() as int, 0);
    assert(d2.len() == d1.len() - w1 + b.len());
    let w = greedy(r0, i0, d.len() as int);
    assert(w == w1 + w2);
    lemma_fill_compose(r0, i0, w1, w2);
    assert(d2 =~= d.subrange(w1, d.len() as int));
    assert(d1.subrange(0, w1) + d2.subrange(0, w2) =~= d.subrange(0, w));
    assert(d2.subrange(w2, d2.len() as int) =~= d.subrange(w, d.len() as int));
    assert(d2.len() - w2 == d.len() - w);
    assert(t2.regions() == s2.regions());
    assert(t2.current() == s2.current());
    if p2.result is Ok {
        assert(p.result is Ok);
    } else {
        assert(p.result is Err);
    }
}

/// However many calls write through a ready traversal, fewer bytes than one unit
/// of the region being filled are held after each of them, and the traversal stays
/// ready.
pub proof fn law_held_below_unit(
    states: Seq<MemoryTraversal>,
    datas: Seq<Seq<u8>>,
    plans: Seq<WritePlan>,
)
    requires
        states.len() == plans.len() + 1,
        datas.len() == plans.len(),
        ready(states[0]),
        forall|i: int|
            #![trigger plans[i]]
            0 <= i < plans.len() ==> planned(states[i], states[i + 1], datas[i], plans[i]),
    ensures
        forall|i: int|
            0 <= i < states.len() ==> ready(#[trigger] states[i]) && states[i].held().len()
                < states[i].current().unit(),
{
    assert forall|i: int| 0 <= i < states.len() implies ready(#[trigger] states[i]) && states[i].held().len()
        < states[i].current().unit() by {
        if i > 0 {
            let j = i - 1;
            assert(plans[j] == plans[j]);
            assert(planned(states[j], states[j + 1], datas[j], plans[j]));
        }
    }
}

/// The data of a run of calls, one call's after another's.
pub open spec fn joined(datas: Seq<Seq<u8>>) -> Seq<u8>
    decreases datas.len(),
{
    if datas.len() == 0 {
        Seq::empty()
    } else {
        joined(datas.drop_last()) + datas.last()
    }
}

/// The writes of a run of calls, in order.
pub open spec fn all_writes(plans: Seq<WritePlan>) -> Seq<BlockWrite>
    decreases plans.len(),
{
    if plans.len() == 0 {
        Seq::empty()
    } else {
        all_writes(plans.drop_last()) + plans.last().writes@
    }
}

proof fn lemma_follows_nothing(t: MemoryTraversal)
    requires
        t.wf(),
    ensures
        follows(t, t, Seq::<BlockWrite>::empty()),
{
    assert(written_bytes(Seq::<BlockWrite>::empty()).len() == 0);
    assert forall|b: int| 0 <= b < t.regions().len() implies #[trigger] t.regions()[b].advanced_by(
        t.regions()[b],
        t.regions()[b].lo() - t.regions()[b].lo(),
    ) by {
        let r: MemRegion = t.regions()[b];
        match r {
            MemRegion::Generic(_) => {},
            MemRegion::Reram(_) => {},
        }
    }
    assert forall|b: int| 0 <= b < t.regions().len() implies (#[trigger] t.regions()[b].lo() - t.regions()[b].lo())
        % t.regions()[b].unit() == 0 by {
        assert(t.regions()[b].unit() == 4 || t.regions()[b].unit() == 32);
    }
}

/// A ready traversal that holds as many bytes as it has room for is full and holds
/// nothing.
proof fn lemma_held_all_room(t: MemoryTraversal)
    requires
        ready(t),
        t.held().len() == t.capacity(),
    ensures
        t.capacity() == 0,
{
    let n = t.regions().len() as int;
    let c = t.cursor();
    lemma_space_unfold(t.regions(), c, n);
    let r = t.current();
    assert(r.wf());
    if r.remaining() > 0 {
        let (x, u) = (r.remaining(), r.unit());
        assert(x % u == 0);
        assert(u == 4 || u == 32);
        assert(x >= u) by (nonlinear_arith)
            requires
                x > 0,
                u > 0,
                x % u == 0,
        ;
    } else {
        assert(c == n - 1);
        assert(space(t.regions(), c + 1, n) == 0);
    }
}

/// However many calls write through a ready traversal, as long as all their data,
/// after the bytes held at the start, leaves less than a unit of the last region
/// over once every region is full: each call had room for its data and succeeds;
/// the writes of all the calls, in order, take the first state to the last, each
/// landing where filling the first state from its fill position puts its bytes;
/// the bytes written and then held are the bytes held at the start followed by all
/// the data; fewer than a unit of the region being filled is held; and when the
/// data exactly fills what was left, the last state has no room left and holds
/// nothing.
pub proof fn law_run(states: Seq<MemoryTraversal>, datas: Seq<Seq<u8>>, plans: Seq<WritePlan>)
    requires
        states.len() == plans.len() + 1,
        datas.len() == plans.len(),
        ready(states[0]),
        forall|i: int|
            #![trigger plans[i]]
            0 <= i < plans.len() ==> planned(states[i], states[i + 1], datas[i], plans[i]),
        states[0].held().len() + joined(datas).len() < states[0].capacity() + last_unit(states[0]),
    ensures
        forall|i: int|
            #![trigger plans[i]]
            0 <= i < plans.len() ==> plans[i].result is Ok && states[i].held().len() + datas[i].len()
                < states[i].capacity() + last_unit(states[i]),
        follows(states[0], states.last(), all_writes(plans)),
        written_bytes(all_writes(plans)) + states.last().held() == states[0].held() + joined(datas),
        ready(states.last()),
        states.last().held().len() < states.last().current().unit(),
        states[0].held().len() + joined(datas).len() == states[0].capacity() ==> states.last().capacity()
            == 0 && states.last().held().len() == 0,
    decreases plans.len(),
{
    let s0 = states[0];
    let last = states.last();
    if plans.len() == 0 {
        lemma_follows_nothing(s0);
        assert(joined(datas) =~= Seq::<u8>::empty());
        assert(all_writes(plans) =~= Seq::<BlockWrite>::empty());
        assert(written_bytes(Seq::<BlockWrite>::empty()) + s0.held() =~= s0.held() + Seq::<u8>::empty());
    } else {
        let m = plans.len() - 1;
        let st = states.subrange(0, m + 1);
        let ds = datas.subrange(0, m);
        let ps = plans.subrange(0, m);
        assert(ds =~= datas.drop_last());
        assert(ps =~= plans.drop_last());
        assert forall|i: int| #![trigger ps[i]] 0 <= i < ps.len() implies planned(st[i], st[i + 1], ds[i], ps[i]) by {
            assert(plans[i] == ps[i]);
        }
        law_run(st, ds, ps);
        let sm = states[m];
        assert(st.last() == sm);
        let wm = all_writes(ps);
        let jm = joined(ds);
        let dm = datas[m];
        let pm = plans[m];
        assert(pm == plans[m]);
        assert(planned(sm, last, dm, pm));
        // The last region keeps its granularity.
        let k = s0.regions().len() - 1;
        assert(s0.regions()[k].advanced_by(sm.regions()[k], sm.regions()[k].lo() - s0.regions()[k].lo()));
        assert(last_unit(sm) == last_unit(s0));
        assert((written_bytes(wm) + sm.held()).len() == (s0.held() + jm).len());
        assert(sm.held().len() + dm.len() < sm.capacity() + last_unit(sm));
        assert(pm.result is Ok);
        assert(dm.subrange(0, pm.taken as int) =~= dm);
        law_writes_compose(s0, sm, last, wm, jm, dm, pm);
        assert(all_writes(plans) == wm + pm.writes@);
        assert(joined(datas) == jm + dm);
        assert(s0.held() + jm + dm =~= s0.held() + (jm + dm));
        assert forall|i: int| #![trigger plans[i]] 0 <= i < plans.len() implies plans[i].result is Ok
            && states[i].held().len() + datas[i].len() < states[i].capacity() + last_unit(states[i]) by {
            if i < m {
                assert(ps[i] == plans[i]);
                assert(st[i] == states[i]);
                assert(ds[i] == datas[i]);
            }
        }
        let w = all_writes(plans);
        if s0.held().len() + joined(datas).len() == s0.capacity() {
            assert((written_bytes(w) + last.held()).len() == (s0.held() + joined(datas)).len());
            lemma_held_all_room(last);
        }
    }
    if s0.held().len() + joined(datas).len() == s0.capacity() && plans.len() == 0 {
        lemma_held_all_room(s0);
    }
}

/// However many times data is written into an erasure, as long as all of it fits:
/// each call had room for its data and succeeds, the writes of all the calls take
/// the erased area from the first state to the last as `law_run` says, and the count
/// of bytes written grows by the length of all the data.
pub proof fn law_erasure_run(es: Seq<Erasure>, datas: Seq<Seq<u8>>, plans: Seq<WritePlan>)
    requires
        es.len() == plans.len() + 1,
        datas.len() == plans.len(),
        es[0].wf(),
        forall|i: int|
            #![trigger plans[i]]
            0 <= i < plans.len() ==> planned(es[i].traversal(), es[i + 1].traversal(), datas[i], plans[i])
                && es[i + 1].written_count() == es[i].written_count() + datas[i].len(),
        es[0].room_for(joined(datas).len() as int),
    ensures
        forall|i: int| #![trigger plans[i]] 0 <= i < plans.len() ==> plans[i].result is Ok && es[i].room_for(datas[i].len() as int),
        follows(es[0].traversal(), es.last().traversal(), all_writes(plans)),
        written_bytes(all_writes(plans)) + es.last().traversal().held() == es[0].traversal().held() + joined(datas),
        es.last().wf(),
        es.last().written_count() == es[0].written_count() + joined(datas).len(),
        es[0].traversal().held().len() + joined(datas).len() == es[0].traversal().capacity() ==> es.last().traversal().capacity()
            == 0 && es.last().traversal().held().len() == 0,
    decreases plans.len(),
{
    let states = Seq::new(es.len(), |i: int| es[i].traversal());
    assert forall|i: int| #![trigger plans[i]] 0 <= i < plans.len() implies planned(states[i], states[i + 1], datas[i], plans[i]) by {
        assert(planned(es[i].traversal(), es[i + 1].traversal(), datas[i], plans[i]));
    }
    law_run(states, datas, plans);
    assert(states.last() == es.last().traversal());
    assert forall|i: int| #![trigger plans[i]] 0 <= i < plans.len() implies plans[i].result is Ok && es[i].room_for(datas[i].len() as int) by {
        assert(states[i] == es[i].traversal());
    }
    if plans.len() > 0 {
        let m = plans.len() - 1;
        let ds = datas.subrange(0, m);
        let ps = plans.subrange(0, m);
        let e2 = es.subrange(0, m + 1);
        assert(ds =~= datas.drop_last());
        assert forall|i: int| #![trigger ps[i]] 0 <= i < ps.len() implies planned(e2[i].traversal(), e2[i + 1].traversal(), ds[i], ps[i])
            && e2[i + 1].written_count() == e2[i].written_count() + ds[i].len() by {
            assert(plans[i] == ps[i]);
        }
        assert(joined(datas) == joined(ds) + datas[m]);
        law_erasure_run(e2, ds, ps);
        assert(e2.last() == es[m]);
        assert(plans[m] == plans[m]);
    }
}

/// A region's write check accepts exactly the writes of a whole number of its units
/// that are no longer than what is left, refuses any other length with
/// `BadAlignment`, and a too long whole number of units with `MemoryInUse`.
pub proof fn law_write_check(len: int, unit: int, remaining: int)
    requires
        unit > 0,
    ensures
        write_check(len, unit, remaining) is Ok <==> (len % unit == 0 && len <= remaining),
        len % unit != 0 <==> write_check(len, unit, remaining) == Err::<(), EraseError>(EraseError::BadAlignment),
        len % unit == 0 && len > remaining <==> write_check(len, unit, remaining) == Err::<(), EraseError>(
            EraseError::MemoryInUse,
        ),
{
}

/// RRAM is written in 32-byte rows, ordinary memory in 4-byte words.
pub proof fn law_granularity(r: MemRegion)
    ensures
        r is Reram ==> r.unit() == 32,
        r is Generic ==> r.unit() == 4,
{
}

/// A step decided with the data read from `pos` on.
pub open spec fn step_from(step: WriteStep, pos: int) -> WriteStep {
    match step {
        WriteStep::Write { block, region, data, next } => WriteStep::Write {
            block,
            region,
            data,
            next: (next - pos) as usize,
        },
        _ => step,
    }
}

/// Deciding a step of `data` from `pos` on is deciding a step of `data[pos..]` from
/// its start: the same step, with the position where the data goes on counted from
/// `pos`.  In particular, with bytes held, the unit written is the held bytes
/// completed with the bytes of the data from `pos` on.
pub proof fn law_step_from_pos(
    before: MemoryTraversal,
    after: MemoryTraversal,
    data: Seq<u8>,
    pos: int,
    step: WriteStep,
)
    requires
        0 <= pos <= data.len(),
        stepped(before, after, data, pos, step),
    ensures
        stepped(before, after, data.subrange(pos, data.len() as int), 0, step_from(step, pos)),
        !before.after_unit() && before.held().len() > 0 ==> (step matches WriteStep::Write {
            data: bytes,
            next,
            ..
        } ==> next == pos + before.current().unit() - before.held().len() && bytes@ == before.held()
            + data.subrange(pos, pos + before.current().unit() - before.held().len())),
{
    let rest = data.subrange(pos, data.len() as int);
    match step {
        WriteStep::Write { block, region, data: bytes, next } => {
            assert(pos <= next);
            assert(rest.subrange(0, next - pos) =~= data.subrange(pos, next as int));
        },
        WriteStep::Held => {
            assert(rest.subrange(0, rest.len() as int) =~= rest);
        },
        _ => {},
    }
}

/// A call succeeds exactly when its data, after the bytes held, leaves less than a
/// unit of the last region over once every region is full.
pub proof fn law_room_is_success(before: MemoryTraversal, after: MemoryTraversal, data: Seq<u8>, plan: WritePlan)
    requires
        ready(before),
        planned(before, after, data, plan),
    ensures
        plan.result is Ok <==> before.held().len() + data.len() < before.capacity()
            + before.regions().last().unit(),
{
    let n = before.regions().len() as int;
    let k = n - 1;
    assert(before.regions()[k].advanced_by(after.regions()[k], after.regions()[k].lo() - before.regions()[k].lo()));
    assert(after.regions().last() == after.regions()[k]);
    if plan.result is Ok {
        let c = after.cursor();
        let r = after.current();
        assert(data.subrange(0, plan.taken as int) =~= data);
        let wb = written_bytes(plan.writes@);
        assert((wb + after.held()).len() == (before.held() + data).len());
        assert(wb.len() + after.capacity() == before.capacity());
        assert(after.held().len() < r.unit());
        lemma_space_unfold(after.regions(), c, n);
        assert(r.wf());
        if r.remaining() > 0 {
            let (x, u) = (r.remaining(), r.unit());
            assert(x % u == 0);
            assert(u == 4 || u == 32);
            assert(x >= u) by (nonlinear_arith)
                requires
                    x > 0,
                    u > 0,
                    x % u == 0,
            ;
        } else {
            assert(c == n - 1);
            assert(space(after.regions(), c + 1, n) == 0);
        }
    }
}

} // verus!
