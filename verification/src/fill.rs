//! Filling a list of regions with whole units, as a mathematical model.
use vstd::prelude::*;

use crate::region::MemRegion;
use crate::traversal::space;

verus! {

/// The largest multiple of `m` that is at most `x`.
pub open spec fn whole_units(x: int, m: int) -> int {
    x - x % m
}

pub open spec fn min(a: int, b: int) -> int {
    if a <= b {
        a
    } else {
        b
    }
}

/// Every region is well formed.
pub open spec fn all_wf(r: Seq<MemRegion>) -> bool {
    forall|b: int| 0 <= b < r.len() ==> #[trigger] r[b].wf()
}

/// Every region from `i` on has a whole number of units left.
pub open spec fn aligned_from(r: Seq<MemRegion>, i: int) -> bool {
    forall|b: int| i <= b < r.len() ==> #[trigger] r[b].remaining() % r[b].unit() == 0
}

/// Bytes written when `avail` bytes are offered to the regions from region `i` on:
/// a region with nothing left is passed over, unless it is the last; each region
/// takes as many whole units as it and the offer have room for; when it is then
/// full the rest is offered to the next region; writing stops once less than a unit
/// of the region being filled is left.
pub open spec fn greedy(r: Seq<MemRegion>, i: int, avail: int) -> int
    decreases r.len() - i,
{
    if i < 0 || i >= r.len() {
        0
    } else if r[i].remaining() <= 0 {
        if i + 1 < r.len() {
            greedy(r, i + 1, avail)
        } else {
            0
        }
    } else if avail < r[i].unit() {
        0
    } else {
        let k = whole_units(min(avail, r[i].remaining()), r[i].unit());
        if k == r[i].remaining() && i + 1 < r.len() {
            k + greedy(r, i + 1, avail - k)
        } else {
            k
        }
    }
}

/// The region being filled once `w` bytes have been written from region `i` on:
/// the region that byte `w` goes to, or the last region once all are full.
pub open spec fn cursor_at(r: Seq<MemRegion>, i: int, w: int) -> int
    decreases r.len() - i,
{
    if i < 0 || i + 1 >= r.len() {
        i
    } else if w < r[i].remaining() {
        i
    } else {
        cursor_at(r, i + 1, w - r[i].remaining())
    }
}

/// The regions once `w` bytes have been written into them from region `i` on.
pub open spec fn filled(r: Seq<MemRegion>, i: int, w: int) -> Seq<MemRegion>
    decreases r.len() - i,
{
    if i < 0 || i >= r.len() || w <= 0 {
        r
    } else if w <= r[i].remaining() || i + 1 >= r.len() {
        r.update(i, r[i].skipped(w))
    } else {
        filled(r.update(i, r[i].skipped(r[i].remaining())), i + 1, w - r[i].remaining())
    }
}

pub proof fn lemma_cursor_frame(r1: Seq<MemRegion>, r2: Seq<MemRegion>, j: int, x: int)
    requires
        r1.len() == r2.len(),
        forall|m: int| j <= m < r1.len() ==> r1[m] == r2[m],
    ensures
        cursor_at(r1, j, x) == cursor_at(r2, j, x),
    decreases r1.len() - j,
{
    if 0 <= j && j + 1 < r1.len() && x >= r1[j].remaining() {
        lemma_cursor_frame(r1, r2, j + 1, x - r1[j].remaining());
    }
}

pub proof fn lemma_greedy_frame(r1: Seq<MemRegion>, r2: Seq<MemRegion>, j: int, a: int)
    requires
        r1.len() == r2.len(),
        forall|m: int| j <= m < r1.len() ==> r1[m] == r2[m],
    ensures
        greedy(r1, j, a) == greedy(r2, j, a),
    decreases r1.len() - j,
{
    if 0 <= j < r1.len() {
        if r1[j].remaining() <= 0 {
            lemma_greedy_frame(r1, r2, j + 1, a);
        } else if a >= r1[j].unit() {
            let k = whole_units(min(a, r1[j].remaining()), r1[j].unit());
            lemma_greedy_frame(r1, r2, j + 1, a - k);
        }
    }
}

/// Moving past regions with nothing left changes neither what is written nor
/// where filling stands.
pub proof fn lemma_skip_empty(r: Seq<MemRegion>, j: int, a: int)
    requires
        0 <= j < r.len(),
        all_wf(r),
    ensures
        greedy(r, j, a) == greedy(r, cursor_at(r, j, 0), a),
        cursor_at(r, cursor_at(r, j, 0), 0) == cursor_at(r, j, 0),
        j <= cursor_at(r, j, 0) < r.len(),
        cursor_at(r, j, 0) + 1 < r.len() ==> r[cursor_at(r, j, 0)].remaining() > 0,
        forall|b: int| j <= b < cursor_at(r, j, 0) ==> #[trigger] r[b].remaining() == 0,
    decreases r.len() - j,
{
    assert(r[j].wf());
    if j + 1 < r.len() && 0 >= r[j].remaining() {
        lemma_skip_empty(r, j + 1, a);
    }
}

proof fn lemma_whole_units_shift(x: int, k: int, m: int)
    requires
        m > 0,
        k % m == 0,
        0 <= k <= x,
    ensures
        whole_units(x - k, m) == whole_units(x, m) - k,
        0 <= whole_units(x, m) <= x,
        whole_units(x, m) % m == 0,
        x - whole_units(x, m) < m,
{
    vstd::arithmetic::div_mod::lemma_fundamental_div_mod(k, m);
    vstd::arithmetic::div_mod::lemma_mod_multiples_vanish(-(k / m), x, m);
    assert(m * (-(k / m)) + x == x - k) by (nonlinear_arith)
        requires k == m * (k / m) + k % m, k % m == 0;
    vstd::arithmetic::div_mod::lemma_fundamental_div_mod(x, m);
    vstd::arithmetic::div_mod::lemma_mod_multiples_basic(x / m, m);
    vstd::arithmetic::mul::lemma_mul_is_commutative(x / m, m);
}

/// Writing `k` bytes, a whole number of units no more than one step of filling
/// takes, into the region `c` being filled, and then moving past regions with
/// nothing left, leaves the rest of the filling as it was.
pub proof fn lemma_greedy_step(r: Seq<MemRegion>, c: int, a: int, k: int)
    requires
        0 <= c < r.len(),
        all_wf(r),
        aligned_from(r, c),
        r[c].remaining() > 0,
        a >= r[c].unit(),
        k % r[c].unit() == 0,
        r[c].unit() <= k <= whole_units(min(a, r[c].remaining()), r[c].unit()),
    ensures
        ({
            let r2 = r.update(c, r[c].skipped(k));
            greedy(r, c, a) == k + greedy(r2, cursor_at(r2, c, 0), a - k)
        }),
{
    let m = r[c].unit();
    let rem = r[c].remaining();
    let r2 = r.update(c, r[c].skipped(k));
    assert(r[c].wf());
    assert(rem % m == 0);
    assert(m == 4 || m == 32);
    lemma_whole_units_shift(min(a, rem), 0, m);
    assert(k <= rem);
    r[c].lemma_skipped(k);
    assert(all_wf(r2)) by {
        assert forall|b: int| 0 <= b < r2.len() implies #[trigger] r2[b].wf() by {
            assert(r[b].wf());
        }
    }
    let big = whole_units(min(a, rem), m);
    assert(r2[c].unit() == m && r2[c].remaining() == rem - k);
    assert(greedy(r, c, a) == if big == rem && c + 1 < r.len() {
        big + greedy(r, c + 1, a - big)
    } else {
        big
    });
    if k == rem {
        assert(big == rem);
        lemma_greedy_frame(r2, r, c + 1, a - k);
        if c + 1 < r.len() {
            lemma_skip_empty(r2, c, a - k);
            assert(cursor_at(r2, c, 0) == cursor_at(r2, c + 1, 0));
            lemma_skip_empty(r2, c + 1, a - k);
        } else {
            assert(cursor_at(r2, c, 0) == c);
            assert(greedy(r2, c, a - k) == 0);
        }
    } else {
        assert(cursor_at(r2, c, 0) == c);
        lemma_whole_units_shift(min(a, rem), k, m);
        assert(min(a - k, rem - k) == min(a, rem) - k);
        lemma_greedy_frame(r2, r, c + 1, a - big);
        if a - k < m {
            assert(big == k) by (nonlinear_arith)
                requires
                    big % m == 0,
                    k % m == 0,
                    k <= big,
                    big - k <= a - k,
                    a - k < m,
                    m > 0,
            {
                let d = big - k;
                vstd::arithmetic::div_mod::lemma_fundamental_div_mod(d, m);
            }
            assert(greedy(r2, c, a - k) == 0);
        } else {
            assert(whole_units(min(a - k, rem - k), m) == big - k);
            assert(a - k - (big - k) == a - big);
        }
    }
}

proof fn lemma_space_frame2(r1: Seq<MemRegion>, r2: Seq<MemRegion>, i: int, n: int)
    requires
        forall|m: int| i <= m < n ==> r1[m] == r2[m],
    ensures
        space(r1, i, n) == space(r2, i, n),
    decreases n - i,
{
    if i < n {
        lemma_space_frame2(r1, r2, i + 1, n);
    }
}

pub proof fn lemma_space_unfold(r: Seq<MemRegion>, i: int, n: int)
    requires
        0 <= i < n <= r.len(),
        all_wf(r),
    ensures
        space(r, i, n) == r[i].remaining() + space(r, i + 1, n),
        space(r, i + 1, n) >= 0,
    decreases n - i,
{
    if i + 1 < n {
        assert(r[i + 1].wf());
        lemma_space_unfold(r, i + 1, n);
    }
}

/// Writing `w` bytes and then `k` more is writing `w + k` bytes.
pub proof fn lemma_fill_compose(r: Seq<MemRegion>, i: int, w: int, k: int)
    requires
        0 <= i < r.len(),
        all_wf(r),
        0 <= w,
        0 <= k,
        w + k <= space(r, i, r.len() as int),
    ensures
        filled(filled(r, i, w), cursor_at(r, i, w), k) == filled(r, i, w + k),
        cursor_at(filled(r, i, w), cursor_at(r, i, w), k) == cursor_at(r, i, w + k),
        all_wf(filled(r, i, w)),
        i <= cursor_at(r, i, w) < r.len(),
        filled(r, i, w).len() == r.len(),
    decreases r.len() - i,
{
    let n = r.len() as int;
    let rem = r[i].remaining();
    assert(r[i].wf());
    lemma_space_unfold(r, i, n);
    r[i].lemma_skipped(0);
    if w == 0 {
        if i + 1 < n && rem == 0 {
            // Region `i` is passed over.
            let u = r.update(i, r[i].skipped(0));
            assert(u =~= r);
            lemma_fill_compose(r, i + 1, 0, k);
            assert(filled(r, i, 0) == r);
            assert(cursor_at(r, i, 0) == cursor_at(r, i + 1, 0));
            if k > 0 {
                assert(filled(r, i, k) == filled(u, i + 1, k));
            }
            assert(cursor_at(filled(r, i, w), cursor_at(r, i, w), k) == cursor_at(r, i, w + k));
        } else {
            assert(cursor_at(r, i, 0) == i);
            assert(cursor_at(filled(r, i, w), cursor_at(r, i, w), k) == cursor_at(r, i, w + k));
        }
    } else if w <= rem || i + 1 >= n {
        let u = r.update(i, r[i].skipped(w));
        r[i].lemma_skipped(w);
        assert(all_wf(u)) by {
            assert forall|b: int| 0 <= b < u.len() implies #[trigger] u[b].wf() by {
                assert(r[b].wf());
            }
        }
        assert(filled(r, i, w) == u);
        if w < rem || i + 1 >= n {
            assert(cursor_at(r, i, w) == i);
            assert(u[i].remaining() == rem - w);
            if k > 0 {
                if k <= rem - w || i + 1 >= n {
                    if i + 1 < n {
                        lemma_cursor_frame(u, r, i + 1, 0);
                    }
                    r[i].lemma_skipped_twice(w, k);
                    assert(u.update(i, u[i].skipped(k)) =~= r.update(i, r[i].skipped(w + k)));
                } else {
                    lemma_cursor_frame(u, r, i + 1, k - (rem - w));
                    assert(cursor_at(u, i, k) == cursor_at(u, i + 1, k - (rem - w)));
                    assert(cursor_at(r, i, w + k) == cursor_at(r, i + 1, w + k - rem));
                    r[i].lemma_skipped_twice(w, rem - w);
                    assert(u.update(i, u[i].skipped(rem - w)) =~= r.update(i, r[i].skipped(rem)));
                }
            }
            assert(cursor_at(filled(r, i, w), cursor_at(r, i, w), k) == cursor_at(r, i, w + k));
        } else {
            // `w == rem`: region `i` is full and filling stands at the next region
            // that has room.
            assert(w == rem);
            assert(cursor_at(r, i, w) == cursor_at(r, i + 1, 0));
            lemma_cursor_frame(r, u, i + 1, 0);
            lemma_space_frame2(u, r, i + 1, n);
            lemma_fill_compose(u, i + 1, 0, k);
            lemma_cursor_frame(r, u, i + 1, k);
            if k > 0 {
                assert(filled(r, i, w + k) == filled(u, i + 1, k));
                assert(cursor_at(r, i, w + k) == cursor_at(r, i + 1, k));
            } else {
                assert(filled(u, cursor_at(u, i + 1, 0), 0) == u);
            }
            assert(cursor_at(filled(r, i, w), cursor_at(r, i, w), k) == cursor_at(r, i, w + k));
        }
    } else {
        let u = r.update(i, r[i].skipped(rem));
        r[i].lemma_skipped(rem);
        assert(all_wf(u)) by {
            assert forall|b: int| 0 <= b < u.len() implies #[trigger] u[b].wf() by {
                assert(r[b].wf());
            }
        }
        lemma_space_frame2(u, r, i + 1, n);
        lemma_fill_compose(u, i + 1, w - rem, k);
        lemma_cursor_frame(r, u, i + 1, w - rem);
        lemma_cursor_frame(r, u, i + 1, w - rem + k);
        assert(filled(r, i, w) == filled(u, i + 1, w - rem));
        assert(cursor_at(r, i, w) == cursor_at(r, i + 1, w - rem));
        assert(filled(r, i, w + k) == filled(u, i + 1, w + k - rem));
        assert(cursor_at(r, i, w + k) == cursor_at(r, i + 1, w + k - rem));
    }
}

/// The bytes left from region `c` on include those of region `c`.
pub proof fn lemma_space_unfold_rem(r: Seq<MemRegion>, c: int)
    requires
        0 <= c < r.len(),
        all_wf(r),
    ensures
        space(r, c, r.len() as int) >= r[c].remaining(),
{
    lemma_space_unfold(r, c, r.len() as int);
}

/// After writing `k` bytes into region `c` at the fill position, filling stands
/// where moving past the regions with nothing left puts it.
pub proof fn lemma_step_cursor(r: Seq<MemRegion>, c: int, k: int)
    requires
        0 <= c < r.len(),
        all_wf(r),
        0 < k <= r[c].remaining(),
    ensures
        cursor_at(r, c, k) == cursor_at(r.update(c, r[c].skipped(k)), c, 0),
{
    let u = r.update(c, r[c].skipped(k));
    r[c].lemma_skipped(k);
    if c + 1 < r.len() {
        lemma_cursor_frame(r, u, c + 1, 0);
    }
}
/// Offering `a1` bytes and then `b` more to what the first offer left writes, in
/// all, what offering `a1 + b` bytes at once writes.
pub proof fn lemma_greedy_compose(r: Seq<MemRegion>, i: int, a1: int, b: int)
    requires
        0 <= i < r.len(),
        all_wf(r),
        aligned_from(r, i),
        a1 >= 0,
        b >= 0,
    ensures
        ({
            let w1 = greedy(r, i, a1);
            &&& 0 <= w1 <= a1
            &&& w1 <= space(r, i, r.len() as int)
            &&& greedy(r, i, a1 + b) == w1 + greedy(filled(r, i, w1), cursor_at(r, i, w1), a1 - w1 + b)
        }),
    decreases r.len() - i,
{
    let n = r.len() as int;
    let rem = r[i].remaining();
    let m = r[i].unit();
    let w1 = greedy(r, i, a1);
    assert(r[i].wf());
    assert(m == 4 || m == 32);
    lemma_space_unfold(r, i, n);
    r[i].lemma_skipped(0);
    if rem <= 0 {
        if i + 1 < n {
            lemma_greedy_compose(r, i + 1, a1, b);
            let u = r.update(i, r[i].skipped(0));
            assert(u =~= r);
            assert(filled(r, i, w1) == filled(r, i + 1, w1));
            assert(cursor_at(r, i, w1) == cursor_at(r, i + 1, w1));
        } else {
            assert(w1 == 0);
            assert(cursor_at(r, i, 0) == i);
        }
    } else if a1 < m {
        assert(w1 == 0);
        assert(cursor_at(r, i, 0) == i);
    } else {
        let k1 = whole_units(min(a1, rem), m);
        assert(rem % m == 0);
        lemma_whole_units_shift(min(a1, rem), 0, m);
        lemma_whole_units_shift(min(a1 + b, rem), 0, m);
        assert(k1 >= m) by {
            let x = min(a1, rem);
            vstd::arithmetic::div_mod::lemma_fundamental_div_mod(x, m);
            assert(x - x % m >= m) by (nonlinear_arith)
                requires x >= m, m > 0, x == m * (x / m) + x % m, 0 <= x % m < m;
        }
        let u = r.update(i, r[i].skipped(rem));
        if !(k1 == rem && i + 1 < n) {
            assert(w1 == k1);
            // What is left of the first offer is less than a unit, or every region is full.
            assert(k1 <= whole_units(min(a1 + b, rem), m)) by {
                if min(a1 + b, rem) == rem {
                    assert(whole_units(rem, m) == rem);
                } else {
                    lemma_whole_units_shift(min(a1 + b, rem), 0, m);
                    assert(min(a1, rem) == a1);
                    assert(k1 <= a1);
                    assert(a1 <= a1 + b);
                    assert(whole_units(a1 + b, m) >= whole_units(a1, m)) by {
                        let x = a1;
                        let y = a1 + b;
                        vstd::arithmetic::div_mod::lemma_fundamental_div_mod(x, m);
                        vstd::arithmetic::div_mod::lemma_fundamental_div_mod(y, m);
                        assert(y - y % m >= x - x % m) by (nonlinear_arith)
                            requires
                                x <= y,
                                m > 0,
                                x == m * (x / m) + x % m,
                                y == m * (y / m) + y % m,
                                0 <= x % m < m,
                                0 <= y % m < m,
                        {
                            if x / m > y / m {
                                assert(m * (x / m) >= m * (y / m) + m) by (nonlinear_arith)
                                    requires x / m > y / m, m > 0;
                            }
                        }
                    }
                }
            }
            lemma_greedy_step(r, i, a1 + b, k1);
            let u1 = r.update(i, r[i].skipped(k1));
            assert(filled(r, i, k1) == u1);
            lemma_step_cursor(r, i, k1);
            if k1 < rem {
                assert(cursor_at(u1, i, 0) == i);
                assert(cursor_at(r, i, k1) == i);
            } else {
                assert(cursor_at(r, i, k1) == i);
                assert(cursor_at(u1, i, 0) == i);
            }
        } else {
            r[i].lemma_skipped(rem);
            assert(all_wf(u)) by {
                assert forall|c: int| 0 <= c < u.len() implies #[trigger] u[c].wf() by {
                    assert(r[c].wf());
                }
            }
            lemma_greedy_frame(u, r, i + 1, a1 - rem);
            lemma_greedy_frame(u, r, i + 1, a1 + b - rem);
            lemma_greedy_compose(u, i + 1, a1 - rem, b);
            let w1b = greedy(u, i + 1, a1 - rem);
            assert(w1 == rem + w1b);
            assert(whole_units(min(a1 + b, rem), m) == rem);
            assert(greedy(r, i, a1 + b) == rem + greedy(r, i + 1, a1 + b - rem));
            assert(filled(r, i, w1) == filled(u, i + 1, w1b));
            lemma_cursor_frame(r, u, i + 1, w1b);
            assert(cursor_at(r, i, w1) == cursor_at(r, i + 1, w1b));
            lemma_space_frame2(u, r, i + 1, n);
        }
    }
}
/// Less than a unit holds no whole unit.
pub proof fn lemma_whole_units_small(x: int, m: int)
    requires
        0 <= x < m,
    ensures
        whole_units(x, m) == 0,
{
    vstd::arithmetic::div_mod::lemma_small_mod(x as nat, m as nat);
}
} // verus!
