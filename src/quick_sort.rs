use vstd::prelude::*;
use vstd::multiset::Multiset;
use crate::sorter::{
    at_most_one_swap, lex_lt, pair_fits, sorted, swap_elems, swapped, unchanged_or_swapped_at,
    Reasons, Sorter, NO_INDEX,
};

verus! {

/// Picks the index among `x`, `y`, `z` whose value is the middle one of the
/// three. A value is taken when it is greater than exactly one of the two
/// others; when `x` and `y` both fail that test, `z` is taken.
pub fn median(x: usize, y: usize, z: usize, array: &[usize]) -> (r: usize)
    requires
        x < array@.len(),
        y < array@.len(),
        z < array@.len(),
    ensures
        r == x || r == y || r == z,
        between(array@, r, x, y, z),
{
    if (array[x] > array[y]) ^ (array[x] > array[z]) {
        return x;
    }
    if (array[y] > array[x]) ^ (array[y] > array[z]) {
        return y;
    }
    z
}

/// When the three values are distinct, the value at `r` lies strictly
/// between the two others.
pub open spec fn between(a: Seq<usize>, r: usize, x: usize, y: usize, z: usize) -> bool {
    let (vx, vy, vz) = (a[x as int], a[y as int], a[z as int]);
    vx != vy && vy != vz && vx != vz ==> {
        let v = a[r as int];
        &&& (v > vx || v > vy || v > vz)
        &&& (v < vx || v < vy || v < vz)
    }
}

/// Everything before position `b` is at most everything from `b` on.
pub open spec fn sep(a: Seq<usize>, b: int) -> bool {
    forall|i: int, j: int| 0 <= i < b <= j < a.len() ==> a[i] <= a[j]
}

/// Position `b` lies strictly inside the range `[r.0, r.1]`: some element of
/// the range stands before it and some from it on.
pub open spec fn splits(r: (usize, usize), b: int) -> bool {
    r.0 < b <= r.1
}

/// No range of `rs` is split at `b`.
pub open spec fn free(rs: Seq<(usize, usize)>, b: int) -> bool {
    forall|k: int| 0 <= k < rs.len() ==> !splits(#[trigger] rs[k], b)
}

/// Outside the ranges `rs`, the sequence is sorted: it is split in order at
/// every position that no range straddles.
pub open spec fn sorted_outside(a: Seq<usize>, rs: Seq<(usize, usize)>) -> bool {
    forall|b: int| 0 <= b <= a.len() && #[trigger] free(rs, b) ==> sep(a, b)
}

/// The ranges hold at least two positions each, inside `[0, n)`, and do not
/// overlap.
pub open spec fn ranges_ok(rs: Seq<(usize, usize)>, n: nat) -> bool {
    &&& forall|k: int| 0 <= k < rs.len() ==> (#[trigger] rs[k]).0 < rs[k].1 < n
    &&& forall|k1: int, k2: int|
        0 <= k1 < rs.len() && 0 <= k2 < rs.len() && k1 != k2 ==> (#[trigger] rs[k1]).1 < (
        #[trigger] rs[k2]).0 || rs[k2].1 < rs[k1].0
}

/// The number of positions in the ranges.
pub open spec fn total(rs: Seq<(usize, usize)>) -> nat
    decreases rs.len(),
{
    if rs.len() == 0 {
        0
    } else {
        total(rs.drop_last()) + (rs.last().1 - rs.last().0 + 1) as nat
    }
}

proof fn lemma_total_push(rs: Seq<(usize, usize)>, r: (usize, usize))
    requires
        r.0 <= r.1,
    ensures
        total(rs.push(r)) == total(rs) + (r.1 - r.0 + 1),
{
    assert(rs.push(r).drop_last() =~= rs);
}

/// Exchanging two positions of one range keeps the order outside it.
proof fn lemma_swap_inside(a: Seq<usize>, rs: Seq<(usize, usize)>, k: int, p: int, q: int)
    requires
        sorted_outside(a, rs),
        0 <= k < rs.len(),
        rs[k].0 <= p <= rs[k].1,
        rs[k].0 <= q <= rs[k].1,
        rs[k].1 < a.len(),
    ensures
        sorted_outside(swapped(a, p, q), rs),
{
    let b2 = swapped(a, p, q);
    assert forall|b: int| 0 <= b <= b2.len() && #[trigger] free(rs, b) implies sep(b2, b) by {
        assert(!splits(rs[k], b));
        assert(sep(a, b));
        assert forall|i: int, j: int| 0 <= i < b <= j < b2.len() implies b2[i] <= b2[j] by {
            let i0 = if i == p { q } else if i == q { p } else { i };
            let j0 = if j == p { q } else if j == q { p } else { j };
            assert(b2[i] == a[i0] && b2[j] == a[j0]);
        }
    }
}

/// The stack after the pivot of `[l, r]` was put at `x`: each side that
/// holds two positions or more is pushed.
pub open spec fn sides(st: Seq<(usize, usize)>, l: int, r: int, x: int) -> Seq<(usize, usize)> {
    let s1 = if x - l >= 2 { st.push((l as usize, (x - 1) as usize)) } else { st };
    if r - x >= 2 { s1.push(((x + 1) as usize, r as usize)) } else { s1 }
}

/// The bounds of a range on the stack split no other range.
proof fn lemma_bounds_free(a: Seq<usize>, rs: Seq<(usize, usize)>, kk: int)
    requires
        ranges_ok(rs, a.len()),
        sorted_outside(a, rs),
        0 <= kk < rs.len(),
    ensures
        sep(a, rs[kk].0 as int),
        sep(a, rs[kk].1 + 1),
{
    let l = rs[kk].0 as int;
    let r = rs[kk].1 as int;
    assert forall|k2: int| 0 <= k2 < rs.len() implies !splits(#[trigger] rs[k2], l) by {
        if k2 != kk {
            assert(rs[k2].1 < rs[kk].0 || rs[kk].1 < rs[k2].0);
        }
    }
    assert(free(rs, l));
    assert forall|k2: int| 0 <= k2 < rs.len() implies !splits(#[trigger] rs[k2], r + 1) by {
        if k2 != kk {
            assert(rs[k2].1 < rs[kk].0 || rs[kk].1 < rs[k2].0);
        }
    }
    assert(free(rs, r + 1));
}

/// Once the pivot of `[l, r]` stands at `x`, the sequence is split in order
/// at `x` and at `x + 1`.
proof fn lemma_pivot_splits(a0: Seq<usize>, l: int, r: int, x: int)
    requires
        0 <= l <= x <= r < a0.len(),
        sep(a0, l),
        sep(a0, r + 1),
        forall|t: int| l <= t < x ==> #[trigger] a0[t] < a0[r],
        forall|t: int| x <= t < r ==> #[trigger] a0[t] >= a0[r],
    ensures
        sep(swapped(a0, x, r), l),
        sep(swapped(a0, x, r), r + 1),
        sep(swapped(a0, x, r), x),
        x < r ==> sep(swapped(a0, x, r), x + 1),
{
    let a1 = swapped(a0, x, r);
    let n = a0.len() as int;
    let pv = a0[r];
    assert(a1[x] == pv);
    assert forall|t: int| l <= t < x implies #[trigger] a1[t] < pv by {
        assert(a0[t] < pv);
    }
    assert forall|t: int| x < t <= r implies #[trigger] a1[t] >= pv by {
        if t < r {
            assert(a0[t] >= pv);
        }
    }
    assert forall|i: int, j: int| 0 <= i < l <= j < n implies a1[i] <= a1[j] by {
        let j0 = if j == x { r } else if j == r { x } else { j };
        assert(a1[j] == a0[j0]);
    }
    assert forall|i: int, j: int| 0 <= i < r + 1 <= j < n implies a1[i] <= a1[j] by {
        let i0 = if i == x { r } else if i == r { x } else { i };
        assert(a1[i] == a0[i0]);
    }
    assert forall|i: int, j: int| 0 <= i < x <= j < n implies a1[i] <= a1[j] by {
        if i < l {
            assert(sep(a1, l));
        } else if j > r {
            assert(sep(a1, r + 1));
        } else {
            assert(a1[i] < pv);
            assert(a1[j] >= pv);
        }
    }
    if x < r {
        assert forall|i: int, j: int| 0 <= i < x + 1 <= j < n implies a1[i] <= a1[j] by {
            if i < l {
                assert(sep(a1, l));
            } else if j > r {
                assert(sep(a1, r + 1));
            } else {
                assert(a1[i] <= pv);
                assert(a1[j] >= pv);
            }
        }
    }
}

/// Putting the pivot of the last range in place and pushing its sides keeps
/// the sequence sorted outside the ranges, keeps the ranges well formed,
/// and leaves fewer positions to sort.
#[verifier::rlimit(40)]
proof fn lemma_placed(a0: Seq<usize>, st0: Seq<(usize, usize)>, l: int, r: int, x: int)
    requires
        ranges_ok(st0.push((l as usize, r as usize)), a0.len()),
        sorted_outside(a0, st0.push((l as usize, r as usize))),
        0 <= l <= x <= r < a0.len(),
        r <= usize::MAX,
        l < r,
        forall|t: int| l <= t < x ==> #[trigger] a0[t] < a0[r],
        forall|t: int| x <= t < r ==> #[trigger] a0[t] >= a0[r],
    ensures
        sorted_outside(swapped(a0, x, r), sides(st0, l, r, x)),
        ranges_ok(sides(st0, l, r, x), a0.len()),
        total(sides(st0, l, r, x)) < total(st0.push((l as usize, r as usize))),
{
    let rs0 = st0.push((l as usize, r as usize));
    let kk = st0.len() as int;
    let a1 = swapped(a0, x, r);
    let st1 = sides(st0, l, r, x);
    let n = a0.len() as int;
    assert(rs0[kk] == (l as usize, r as usize));
    lemma_bounds_free(a0, rs0, kk);
    lemma_pivot_splits(a0, l, r, x);
    lemma_swap_inside(a0, rs0, kk, x, r);
    assert forall|k2: int| 0 <= k2 < st0.len() implies #[trigger] st1[k2] == rs0[k2] by {
    }
    assert forall|k2: int| st0.len() <= k2 < st1.len() implies (#[trigger] st1[k2]) == (
    l as usize, (x - 1) as usize) || st1[k2] == ((x + 1) as usize, r as usize) by {
    }
    assert forall|b: int| 0 <= b <= n && #[trigger] free(st1, b) implies sep(a1, b) by {
        if l < b <= r {
            if b < x {
                assert(st1[kk] == (l as usize, (x - 1) as usize));
                assert(splits(st1[kk], b));
            } else if b > x + 1 {
                let k3 = st1.len() - 1;
                assert(st1[k3] == ((x + 1) as usize, r as usize));
                assert(splits(st1[k3], b));
            }
        } else {
            assert forall|k2: int| 0 <= k2 < rs0.len() implies !splits(#[trigger] rs0[k2], b) by {
                if k2 < st0.len() {
                    assert(st1[k2] == rs0[k2]);
                }
            }
            assert(free(rs0, b));
        }
    }
    assert forall|k1: int, k2: int|
        0 <= k1 < st1.len() && 0 <= k2 < st1.len() && k1 != k2 implies (#[trigger] st1[k1]).1 < (
        #[trigger] st1[k2]).0 || st1[k2].1 < st1[k1].0 by {
        if k1 < st0.len() && k2 < st0.len() {
            assert(rs0[k1] == st1[k1] && rs0[k2] == st1[k2]);
        } else if k1 < st0.len() {
            assert(rs0[k1].1 < rs0[kk].0 || rs0[kk].1 < rs0[k1].0);
        } else if k2 < st0.len() {
            assert(rs0[k2].1 < rs0[kk].0 || rs0[kk].1 < rs0[k2].0);
        }
    }
    assert forall|k1: int| 0 <= k1 < st1.len() implies (#[trigger] st1[k1]).0 < st1[k1].1 < n by {
        if k1 < st0.len() {
            assert(rs0[k1] == st1[k1]);
        }
    }
    lemma_total_push(st0, (l as usize, r as usize));
    let s1 = if x - l >= 2 { st0.push((l as usize, (x - 1) as usize)) } else { st0 };
    if x - l >= 2 {
        lemma_total_push(st0, (l as usize, (x - 1) as usize));
    }
    if r - x >= 2 {
        lemma_total_push(s1, ((x + 1) as usize, r as usize));
    }
}

/// Phases of the partitioning of one range.
#[derive(PartialEq, Eq, Structural, Clone, Copy)]
enum Phase {
    /// No range has been taken yet.
    Start,
    /// A pivot has been picked; it is to be moved to the end of the range.
    PivotChosen,
    /// `x` moves right over elements smaller than the pivot.
    ScanLeft,
    /// `y` moves left over elements not smaller than the pivot.
    ScanRight,
    /// The pointers have crossed: the pivot goes to `x`.
    Crossed,
    /// Every range is sorted.
    Finished,
}

/// Quick sort with an explicit stack of ranges still to partition. The pivot
/// of a range is the median of its first, middle and last element; it is
/// moved to the end of the range, `x` and `y` scan towards each other and
/// exchange misplaced pairs, and the pivot is finally put where they cross.
/// The two sides, when they hold two elements or more, are pushed on the
/// stack, and the next range is popped from it.
pub struct QuickSort {
    x: usize,
    y: usize,
    pivot_ptr: usize,
    needs_switch: bool,
    reason: Reasons,
    special: (usize, usize),
    partition_stack: Vec<(usize, usize)>,
    phase: Phase,
    curr_partition_start: usize,
    curr_partition_end: usize,
}

impl QuickSort {
    /// The range being partitioned.
    pub closed spec fn current(&self) -> (usize, usize) {
        (self.curr_partition_start, self.curr_partition_end)
    }

    /// Every range is sorted.
    pub closed spec fn finished(&self) -> bool {
        self.phase == Phase::Finished
    }

    /// A range is being partitioned.
    pub closed spec fn active(&self) -> bool {
        self.phase != Phase::Start && self.phase != Phase::Finished
    }

    /// The ranges not yet sorted: those on the stack and the current one.
    pub closed spec fn ranges(&self) -> Seq<(usize, usize)> {
        if self.active() {
            self.partition_stack@.push(self.current())
        } else {
            self.partition_stack@
        }
    }

    /// The ranges on the stack still to partition.
    pub closed spec fn pending(&self) -> Seq<(usize, usize)> {
        self.partition_stack@
    }

    /// What the scan of the current range has established.
    closed spec fn scan_inv(&self, a: Seq<usize>) -> bool {
        let l = self.curr_partition_start as int;
        let r = self.curr_partition_end as int;
        let x = self.x as int;
        let y = self.y as int;
        match self.phase {
            Phase::PivotChosen => l <= self.pivot_ptr <= r,
            Phase::ScanLeft | Phase::ScanRight => {
                &&& self.pivot_ptr == r
                &&& l <= x <= r
                &&& l <= y < r
                &&& x <= y + 1
                &&& forall|t: int| l <= t < x ==> #[trigger] a[t] < a[r]
                &&& forall|t: int| y < t < r ==> #[trigger] a[t] >= a[r]
                &&& self.phase == Phase::ScanRight ==> a[x] >= a[r] && !self.needs_switch
                &&& self.phase == Phase::ScanLeft && self.needs_switch ==> x < y && a[x] >= a[r]
                    && a[y] < a[r]
            },
            Phase::Crossed => {
                &&& self.pivot_ptr == r
                &&& self.needs_switch
                &&& l <= x <= r
                &&& forall|t: int| l <= t < x ==> #[trigger] a[t] < a[r]
                &&& forall|t: int| x <= t < r ==> #[trigger] a[t] >= a[r]
            },
            _ => true,
        }
    }

    /// Positions left in the ranges, and progress within the current range.
    pub closed spec fn rank(&self, a: Seq<usize>) -> (nat, nat, nat) {
        let n = a.len();
        let d = self.y + 2 - self.x;
        (
            match self.phase {
                Phase::Start => (n + 1) as nat,
                Phase::Finished => 0,
                _ => total(self.ranges()),
            },
            match self.phase {
                Phase::PivotChosen => if self.needs_switch { (4 * n + 11) as nat } else { (4 * n + 12) as nat },
                Phase::ScanLeft => if self.needs_switch {
                    (4 * d + 2) as nat
                } else if a[self.x as int] < a[self.pivot_ptr as int] {
                    (4 * d + 1) as nat
                } else {
                    (4 * d + 4) as nat
                },
                Phase::ScanRight => (4 * d + 3) as nat,
                _ => 0,
            },
            0,
        )
    }

    pub closed spec fn switch_pending(&self) -> bool {
        self.needs_switch
    }

    /// Where the pivot of the current range stands.
    pub closed spec fn pivot(&self) -> usize {
        self.pivot_ptr
    }

    /// A pivot has been picked for the current range and is yet to be moved
    /// to its end.
    pub closed spec fn choosing(&self) -> bool {
        self.phase == Phase::PivotChosen
    }

    /// The pivot is the median of the first, middle and last element of the
    /// current range.
    pub open spec fn pivot_is_median(&self, a: Seq<usize>) -> bool {
        let (l, r) = self.current();
        let mid = ((r - l) / 2 + l) as usize;
        &&& self.pivot() == l || self.pivot() == mid || self.pivot() == r
        &&& between(a, self.pivot(), l, mid, r)
    }

    /// The scan pointers `(x, y)`.
    pub closed spec fn cursor(&self) -> (usize, usize) {
        (self.x, self.y)
    }

    /// The scan pointers are moving over the current range.
    pub closed spec fn scanning(&self) -> bool {
        self.phase == Phase::ScanLeft || self.phase == Phase::ScanRight
    }

    /// How many ranges wait on the stack.
    pub fn pending_ranges(&self) -> (r: usize)
        ensures
            r == self.pending().len(),
    {
        self.partition_stack.len()
    }

    /// Compares the next pair of the current range, or picks the first
    /// range and its pivot. Returns true when the sequence is sorted.
    pub fn modify_state(&mut self, array: &[usize]) -> (done: bool)
        requires
            old(self).inv(array@),
            !old(self).switch_pending(),
        ensures
            done ==> sorted(array@) && *final(self) == *old(self),
            done ==> final(self).pending().len() == 0,
            done == (array@.len() <= 1 && !old(self).active() || old(self).finished()),
            !done ==> final(self).reason_spec() == Reasons::Comparing,
            !done && old(self).scanning() ==> final(self).special_spec() == old(self).cursor(),
            !done && !old(self).active() ==> final(self).current() == (0usize, (array@.len()
                - 1) as usize) && final(self).choosing() && final(self).pivot_is_median(array@)
                && final(self).special_spec() == (NO_INDEX, NO_INDEX),
            !done && old(self).scanning() ==> final(self).cursor() == old(self).cursor() || (
            final(self).cursor() == ((old(self).cursor().0 + 1) as usize, old(self).cursor().1)
                && array@[old(self).cursor().0 as int] < array@[old(self).pivot() as int]) || (
            final(self).cursor() == (old(self).cursor().0, (old(self).cursor().1 - 1) as usize)
                && array@[old(self).cursor().1 as int] >= array@[old(self).pivot() as int]),
            !done ==> final(self).inv(array@),
            !done ==> lex_lt(final(self).rank(array@), old(self).rank(array@)),
    {
        let len = array.len();
        match self.phase {
            Phase::Start => {
                if len <= 1 {
                    return true;
                }
                self.reason = Reasons::Comparing;
                self.special = (NO_INDEX, NO_INDEX);
                self.curr_partition_start = 0;
                self.curr_partition_end = len - 1;
                self.pivot_ptr = median(0, (len - 1) / 2, len - 1, array);
                self.phase = Phase::PivotChosen;
                proof {
                    let a = array@;
                    let rs = self.ranges();
                    assert(rs =~= seq![(0usize, (len - 1) as usize)]);
                    assert forall|b: int| 0 <= b <= a.len() && #[trigger] free(rs, b) implies sep(a, b) by {
                        assert(!splits(rs[0], b));
                    }
                    assert(self.partition_stack@.len() == 0);
                    assert(total(rs.drop_last()) == 0);
                }
                false
            },
            Phase::Finished => true,
            Phase::PivotChosen => {
                self.reason = Reasons::Comparing;
                self.special = (self.pivot_ptr, self.curr_partition_end);
                self.needs_switch = true;
                false
            },
            Phase::Crossed => false,
            Phase::ScanLeft | Phase::ScanRight => {
                self.reason = Reasons::Comparing;
                self.special = (self.x, self.y);
                if self.y < self.x {
                    self.phase = Phase::Crossed;
                    self.needs_switch = true;
                    return false;
                }
                if self.phase == Phase::ScanLeft {
                    if array[self.x] < array[self.pivot_ptr] {
                        self.x = self.x + 1;
                    } else {
                        self.phase = Phase::ScanRight;
                    }
                } else {
                    if array[self.y] >= array[self.pivot_ptr] {
                        if self.y == self.curr_partition_start {
                            self.phase = Phase::Crossed;
                            self.needs_switch = true;
                        } else {
                            self.y = self.y - 1;
                        }
                    } else {
                        self.phase = Phase::ScanLeft;
                        self.needs_switch = true;
                    }
                }
                false
            },
        }
    }

    /// Makes the pending exchange: the pivot to the end of its range, a
    /// misplaced pair, or the pivot to where the pointers crossed, after
    /// which the next range is taken from the stack.
    pub fn switch(&mut self, array: &mut Vec<usize>)
        requires
            old(self).inv(old(array)@),
            old(self).switch_pending(),
        ensures
            final(self).inv(final(array)@),
            final(array)@.to_multiset() == old(array)@.to_multiset(),
            final(array)@.len() == old(array)@.len(),
            at_most_one_swap(old(array)@, final(array)@),
            final(array)@ == swapped(
                old(array)@,
                final(self).special_spec().0 as int,
                final(self).special_spec().1 as int,
            ),
            final(self).reason_spec() == Reasons::Switching,
            final(self).choosing() ==> final(self).pivot_is_median(final(array)@),
            old(self).choosing() ==> final(self).special_spec() == (old(self).pivot(), old(self).current().1),
            old(self).choosing() ==> final(self).pivot() == old(self).current().1,
            old(self).choosing() ==> final(self).cursor() == (old(self).current().0, (old(self).current().1 - 1) as usize),
            lex_lt(final(self).rank(final(array)@), old(self).rank(old(array)@)),
    {
        let ghost a0 = array@;
        let ghost rs0 = self.ranges();
        let ghost k = rs0.len() - 1;
        self.reason = Reasons::Switching;
        let l = self.curr_partition_start;
        let r = self.curr_partition_end;
        if self.phase == Phase::PivotChosen {
            proof {
                lemma_swap_inside(a0, rs0, k, self.pivot_ptr as int, r as int);
            }
            self.special = (self.pivot_ptr, r);
            swap_elems(array, self.pivot_ptr, r);
            self.pivot_ptr = r;
            self.x = l;
            self.y = r - 1;
            self.needs_switch = false;
            self.phase = Phase::ScanLeft;
            assert(self.ranges() =~= rs0);
        } else if self.phase == Phase::ScanLeft {
            proof {
                lemma_swap_inside(a0, rs0, k, self.x as int, self.y as int);
            }
            self.special = (self.x, self.y);
            swap_elems(array, self.x, self.y);
            self.needs_switch = false;
            assert(self.ranges() =~= rs0);
        } else {
            self.place_pivot(array);
        }
    }

    /// Puts the pivot where the pointers crossed, pushes the two sides that
    /// still need sorting, and takes the next range from the stack.
    fn place_pivot(&mut self, array: &mut Vec<usize>)
        requires
            old(self).inv(old(array)@),
            old(self).switch_pending(),
            old(self).phase == Phase::Crossed,
            old(self).reason == Reasons::Switching,
        ensures
            final(self).inv(final(array)@),
            final(array)@.to_multiset() == old(array)@.to_multiset(),
            final(array)@.len() == old(array)@.len(),
            at_most_one_swap(old(array)@, final(array)@),
            final(array)@ == swapped(
                old(array)@,
                final(self).special_spec().0 as int,
                final(self).special_spec().1 as int,
            ),
            final(self).reason_spec() == Reasons::Switching,
            final(self).choosing() ==> final(self).pivot_is_median(final(array)@),
            lex_lt(final(self).rank(final(array)@), old(self).rank(old(array)@)),
    {
        let ghost a0 = array@;
        let ghost st0 = self.partition_stack@;
        let l = self.curr_partition_start;
        let r = self.curr_partition_end;
        let x = self.x;
        assert(self.ranges() =~= st0.push((l, r)));
        self.special = (x, self.pivot_ptr);
        swap_elems(array, x, self.pivot_ptr);
        if x - l >= 2 {
            self.partition_stack.push((l, x - 1));
        }
        if r - x >= 2 {
            self.partition_stack.push((x + 1, r));
        }
        let ghost st1 = self.partition_stack@;
        proof {
            assert(st1 =~= sides(st0, l as int, r as int, x as int));
            lemma_placed(a0, st0, l as int, r as int, x as int);
        }
        match self.partition_stack.pop() {
            Some(next) => {
                let (s, e) = next;
                self.curr_partition_start = s;
                self.curr_partition_end = e;
                self.x = s;
                self.y = e;
                self.pivot_ptr = median(s, (e - s) / 2 + s, e, array.as_slice());
                self.phase = Phase::PivotChosen;
                self.needs_switch = true;
                proof {
                    assert(self.ranges() =~= st1);
                    assert(st1[st1.len() - 1] == next);
                }
            },
            None => {
                self.phase = Phase::Finished;
                self.needs_switch = false;
                proof {
                    let a1 = array@;
                    assert forall|i: int, j: int| 0 <= i <= j < a1.len() implies a1[i] <= a1[j] by {
                        if i < j {
                            assert(free(st1, j));
                            assert(sep(a1, j));
                        }
                    }
                }
            },
        }
    }
}

impl Sorter for QuickSort {
    closed spec fn is_fresh(&self) -> bool {
        &&& self.x == 0
        &&& self.y == 0
        &&& self.pivot_ptr == NO_INDEX
        &&& !self.needs_switch
        &&& self.reason == Reasons::Comparing
        &&& self.special == (NO_INDEX, NO_INDEX)
        &&& self.partition_stack@.len() == 0
        &&& self.phase == Phase::Start
        &&& self.curr_partition_start == 0
        &&& self.curr_partition_end == 0
    }

    closed spec fn inv(&self, a: Seq<usize>) -> bool {
        let n = a.len();
        &&& pair_fits(self.special, n)
        &&& self.phase == Phase::Start ==> self.partition_stack@.len() == 0 && !self.needs_switch
        &&& self.phase == Phase::Finished ==> self.partition_stack@.len() == 0 && !self.needs_switch
            && sorted(a)
        &&& n <= 1 ==> self.phase == Phase::Start
        &&& self.active() ==> {
            &&& n >= 2
            &&& self.curr_partition_start < self.curr_partition_end < n
            &&& ranges_ok(self.ranges(), n)
            &&& sorted_outside(a, self.ranges())
            &&& self.scan_inv(a)
            &&& self.needs_switch ==> self.phase != Phase::ScanRight
            &&& self.phase == Phase::Crossed ==> self.needs_switch
        }
    }

    closed spec fn contents(&self, a: Seq<usize>) -> Multiset<usize> {
        a.to_multiset()
    }

    closed spec fn special_spec(&self) -> (usize, usize) {
        self.special
    }

    open spec fn always_ends() -> bool {
        true
    }

    closed spec fn reason_spec(&self) -> Reasons {
        self.reason
    }

    proof fn lemma_fresh(&self, a: Seq<usize>) {
    }

    fn new() -> (r: Self) {
        QuickSort {
            x: 0,
            y: 0,
            pivot_ptr: NO_INDEX,
            needs_switch: false,
            reason: Reasons::Comparing,
            special: (NO_INDEX, NO_INDEX),
            partition_stack: Vec::new(),
            phase: Phase::Start,
            curr_partition_start: 0,
            curr_partition_end: 0,
        }
    }

    fn special(&self) -> (r: (usize, usize)) {
        self.special
    }

    fn reason(&self) -> (r: Reasons) {
        self.reason
    }

    fn step(&mut self, array: &mut Vec<usize>) -> (done: bool)
        ensures
            done ==> sorted(final(array)@),
            done ==> final(self).pending().len() == 0,
            done ==> final(array)@ == old(array)@,
            !done ==> lex_lt(final(self).rank(final(array)@), old(self).rank(old(array)@)),
            at_most_one_swap(old(array)@, final(array)@),
            unchanged_or_swapped_at(
                old(array)@,
                final(array)@,
                final(self).special_spec(),
                final(self).reason_spec(),
            ),
            old(self).switch_pending() ==> !done && final(array)@ == swapped(
                old(array)@,
                final(self).special_spec().0 as int,
                final(self).special_spec().1 as int,
            ) && final(self).reason_spec() == Reasons::Switching,
            !old(self).switch_pending() ==> final(array)@ == old(array)@,
    {
        if self.needs_switch {
            self.switch(array);
        } else {
            return self.modify_state(array.as_slice());
        }
        false
    }

    fn run(&mut self, array: &mut Vec<usize>)
        ensures
            sorted(final(array)@),
    {
        let ghost m = array@.to_multiset();
        loop
            invariant_except_break
                self.inv(array@),
            invariant
                array@.to_multiset() == m,
            ensures
                sorted(array@),
            decreases self.rank(array@).0, self.rank(array@).1, self.rank(array@).2,
        {
            if self.step(array) {
                break;
            }
        }
        self.reset_state();
    }

    fn reset_state(&mut self) {
        *self = QuickSort::new();
    }
}

} // verus!
