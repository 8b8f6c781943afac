use vstd::prelude::*;
use vstd::multiset::Multiset;
use crate::sorter::{
    at_most_one_swap, lex_lt, pair_fits, sorted, sorted_between, swap_elems, swapped, Reasons,
    Sorter, NO_INDEX,
};

verus! {

/// Node `i` of the heap `a[..hi)` is at least each of its children.
pub open spec fn heap_at(a: Seq<usize>, i: int, hi: int) -> bool {
    &&& 2 * i + 1 < hi ==> a[i] >= a[2 * i + 1]
    &&& 2 * i + 2 < hi ==> a[i] >= a[2 * i + 2]
}

/// The nodes of `[lo, hi)` form a heap, except that node `r` may be smaller
/// than its children; its parent, if in range, is at least those children.
pub open spec fn heap_except(a: Seq<usize>, lo: int, hi: int, r: int) -> bool {
    &&& forall|i: int| lo <= i < hi && i != r ==> #[trigger] heap_at(a, i, hi)
    &&& r > 0 && lo <= (r - 1) / 2 ==> {
        &&& 2 * r + 1 < hi ==> a[(r - 1) / 2] >= a[2 * r + 1]
        &&& 2 * r + 2 < hi ==> a[(r - 1) / 2] >= a[2 * r + 2]
    }
}

/// The nodes of `[lo, hi)` form a heap.
pub open spec fn is_heap(a: Seq<usize>, lo: int, hi: int) -> bool {
    forall|i: int| lo <= i < hi ==> #[trigger] heap_at(a, i, hi)
}

/// The child of `r` that sifting compares `r` with in the heap `a[..=end]`:
/// the left one, unless the right one is in the heap and strictly greater.
pub open spec fn larger_child(a: Seq<usize>, r: int, end: int) -> int {
    let l = 2 * r + 1;
    if l < end && a[l] < a[l + 1] { l + 1 } else { l }
}

/// The root of a heap is its largest element.
proof fn lemma_root_is_max(a: Seq<usize>, hi: int, j: int)
    requires
        is_heap(a, 0, hi),
        0 <= j < hi,
        hi <= a.len(),
    ensures
        a[0] >= a[j],
    decreases j,
{
    if j > 0 {
        let p = (j - 1) / 2;
        assert(heap_at(a, p, hi));
        lemma_root_is_max(a, hi, p);
    }
}

/// Heap sort: the sequence is first made a heap by sifting down each inner
/// node from `len / 2` to `0`; then the root is exchanged with the last
/// element of the heap, the heap shrinks by one and the new root is sifted
/// down. Every step makes at most one exchange.
pub struct HeapSort {
    index: usize,
    special: (usize, usize),
    swapped: bool,
    root: usize,
    start: usize,
    reason: Reasons,
}

/// Every element before `m` is at most every element from `m` on.
pub open spec fn split_at(a: Seq<usize>, m: int) -> bool {
    forall|i: int, j: int| 0 <= i < m <= j < a.len() ==> a[i] <= a[j]
}

impl HeapSort {
    /// The heap `[0, index]` is settled and the elements after it are the
    /// largest ones, in order.
    pub closed spec fn settled(&self, a: Seq<usize>) -> bool {
        &&& !self.swapped
        &&& self.start != NO_INDEX
        &&& self.index != NO_INDEX
        &&& 1 <= self.index < a.len()
        &&& is_heap(a, 0, self.index + 1)
        &&& sorted_between(a, self.index + 1, a.len() as int)
        &&& split_at(a, self.index + 1)
    }

    /// The root of the heap `[0, index)` was exchanged with `index` and is
    /// being sifted down from `root`.
    pub closed spec fn sifting(&self, a: Seq<usize>) -> bool {
        &&& self.swapped
        &&& self.start != NO_INDEX
        &&& self.index != NO_INDEX
        &&& 1 <= self.index < a.len()
        &&& self.root < self.index
        &&& heap_except(a, 0, self.index as int, self.root as int)
        &&& sorted_between(a, self.index as int, a.len() as int)
        &&& split_at(a, self.index as int)
    }

    /// Building the heap: the nodes from `start` on form a heap but for the
    /// element being sifted down from `root`.
    pub closed spec fn building(&self, a: Seq<usize>) -> bool {
        let n = a.len() as int;
        &&& self.index == NO_INDEX
        &&& !self.swapped
        &&& n >= 2
        &&& self.start <= n / 2
        &&& self.start <= self.root < n
        &&& heap_except(a, self.start as int, n, self.root as int)
    }

    /// The end of the heap while sorting.
    pub closed spec fn end_index(&self) -> usize {
        self.index
    }

    /// The node being sifted down.
    pub closed spec fn sift_root(&self) -> usize {
        self.root
    }

    pub closed spec fn extracting(&self) -> bool {
        self.index != NO_INDEX
    }

    /// Phase, node whose heap is being built, and how deep the sifted
    /// element still may go.
    pub closed spec fn rank(&self, n: nat) -> (nat, nat, nat) {
        (
            if self.index == NO_INDEX { (n + 1) as nat } else { self.index as nat },
            if self.index != NO_INDEX { 0 } else if self.start == NO_INDEX { (n + 1) as nat } else { self.start as nat },
            (n - self.root) as nat,
        )
    }

    /// Takes a single step in sifting `root` down `array[..=end]`: compares
    /// the root with its larger child (the right one only when strictly
    /// greater) and exchanges them when the root is smaller. Returns true
    /// when no exchange was needed. On a heap below the root, the result is a
    /// heap, or a heap but for the new root.
    fn sift_down(&mut self, array: &mut Vec<usize>, end: usize) -> (settled: bool)
        requires
            end < old(array)@.len(),
            old(self).root <= end,
        ensures
            settled == (2 * old(self).root + 1 > end || old(array)@[old(self).root as int] >= old(
                array,
            )@[larger_child(old(array)@, old(self).root as int, end as int)]),
            !settled ==> final(self).root == larger_child(old(array)@, old(self).root as int, end as int),
            !settled ==> final(self).reason == Reasons::Comparing,
            settled ==> final(array)@ == old(array)@ && *final(self) == *old(self),
            heap_except(old(array)@, old(self).lo(), end + 1, old(self).root as int) && old(self).lo()
                <= old(self).root ==> (settled ==> is_heap(final(array)@, old(self).lo(), end + 1)),
            heap_except(old(array)@, old(self).lo(), end + 1, old(self).root as int) && old(self).lo()
                <= old(self).root ==> (!settled ==> heap_except(
                final(array)@,
                old(self).lo(),
                end + 1,
                final(self).root as int,
            )),
            !settled ==> final(self).root > old(self).root && final(self).root <= end,
            !settled ==> final(array)@ == swapped(old(array)@, old(self).root as int, final(self).root as int),
            !settled ==> final(self).special_spec() == (old(self).root, final(self).root),
            !settled ==> final(self).lo() == old(self).lo(),
            !settled ==> final(self).index == old(self).index && final(self).start == old(self).start
                && final(self).swapped == old(self).swapped,
            final(array)@.to_multiset() == old(array)@.to_multiset(),
            final(array)@.len() == old(array)@.len(),
            at_most_one_swap(old(array)@, final(array)@),
            forall|x: int| end < x < old(array)@.len() ==> #[trigger] final(array)@[x] == old(array)@[x],
    {
        let ghost a = array@;
        let ghost r = self.root as int;
        let ghost hi = end + 1;
        let ghost heap_below = heap_except(a, self.lo(), hi, r) && self.lo() <= r;
        // The root has no child in `[0, end]`.
        if end == 0 || self.root > (end - 1) / 2 {
            proof {
                assert(heap_at(a, r, hi));
            }
            return true;
        }
        let mut child = self.root * 2 + 1;
        if child < end && array[child] < array[child + 1] {
            child = child + 1;
        }
        if array[self.root] < array[child] {
            self.swap(array, self.root, child, Reasons::Comparing);
            proof {
                if heap_below {
                    let b = array@;
                    let c = child as int;
                    assert(b[r] == a[c] && b[c] == a[r]);
                    assert(c == 2 * r + 1 || c == 2 * r + 2);
                    assert(2 * r + 2 < hi ==> a[2 * r + 1] <= a[c] && a[2 * r + 2] <= a[c]);
                    assert forall|i: int| self.lo() <= i < hi && i != c implies #[trigger] heap_at(b, i, hi) by {
                        if i == r {
                            assert(heap_at(b, i, hi));
                        } else if 2 * i + 1 == r || 2 * i + 2 == r {
                            assert((r - 1) / 2 == i);
                            assert(heap_at(a, i, hi));
                            assert(heap_at(b, i, hi));
                        } else {
                            assert(heap_at(a, i, hi));
                            assert(2 * i + 1 != c && 2 * i + 2 != c);
                            assert(heap_at(b, i, hi));
                        }
                    }
                    assert((c - 1) / 2 == r);
                    assert(heap_at(a, c, hi));
                }
            }
            false
        } else {
            proof {
                assert(heap_at(a, r, hi));
            }
            true
        }
    }

    /// The first node of the heap being worked on.
    pub closed spec fn lo(&self) -> int {
        if self.index == NO_INDEX { self.start as int } else { 0 }
    }

    /// Swaps `(a, b)` in `array`, marks them as special, records the reason,
    /// and continues sifting from `b`.
    fn swap(&mut self, array: &mut Vec<usize>, a: usize, b: usize, reason: Reasons)
        requires
            a < old(array)@.len(),
            b < old(array)@.len(),
        ensures
            final(array)@ == swapped(old(array)@, a as int, b as int),
            final(array)@.to_multiset() == old(array)@.to_multiset(),
            at_most_one_swap(old(array)@, final(array)@),
            *final(self) == (HeapSort { reason, special: (a, b), root: b, ..*old(self) }),
    {
        swap_elems(array, a, b);
        self.reason = reason;
        self.special = (a, b);
        self.root = b;
    }

    /// Finishes sifting, or moves the largest element of the heap behind it.
    pub fn switch(&mut self, array: &mut Vec<usize>)
        requires
            old(self).sifting(old(array)@) || old(self).settled(old(array)@),
            pair_fits(old(self).special_spec(), old(array)@.len()),
        ensures
            final(self).end_index() == 0 ==> sorted(final(array)@),
            final(self).end_index() != 0 ==> final(self).inv(final(array)@) && final(self).extracting(),
            final(self).end_index() <= old(self).end_index(),
            old(self).settled(old(array)@) ==> final(self).end_index() == old(self).end_index(),
            old(self).sifting(old(array)@) ==> final(self).end_index() < old(self).end_index() || (
            final(self).end_index() == old(self).end_index() && final(self).sift_root() > old(self).sift_root()),
            final(array)@.to_multiset() == old(array)@.to_multiset(),
            final(array)@.len() == old(array)@.len(),
            at_most_one_swap(old(array)@, final(array)@),
            pair_fits(final(self).special_spec(), final(array)@.len()),
            final(array)@ == swapped(
                old(array)@,
                final(self).special_spec().0 as int,
                final(self).special_spec().1 as int,
            ),
            final(self).end_index() == 0 ==> final(self).special_spec() == (0usize, 0usize),
            final(self).special_spec().0 < final(array)@.len(),
            final(self).special_spec().1 < final(array)@.len(),
            final(self).reason_spec() == (if final(self).special_spec().1 == 0 {
                Reasons::Switching
            } else {
                Reasons::Comparing
            }),
    {
        let ghost a0 = array@;
        if self.swapped {
            let end = self.index - 1;
            let ghost r0 = self.root as int;
            if self.sift_down(array, end) {
                self.index = self.index - 1;
                self.swapped = false;
            } else {
                proof {
                    let b = array@;
                    let m = self.index as int;
                    let r1 = self.root as int;
                    assert forall|i: int, j: int| 0 <= i < m <= j < b.len() implies b[i] <= b[j] by {
                        if i == r0 {
                            assert(a0[r1] <= a0[j]);
                        } else if i == r1 {
                            assert(a0[r0] <= a0[j]);
                        } else {
                            assert(a0[i] <= a0[j]);
                        }
                    }
                }
            }
        }
        if !self.swapped {
            let ghost a = array@;
            let ghost m = self.index as int;
            let ghost n = a.len() as int;
            self.swap(array, self.index, 0, Reasons::Switching);
            self.swapped = true;
            proof {
                let b = array@;
                assert forall|j: int| 0 <= j <= m implies a[0] >= #[trigger] a[j] by {
                    lemma_root_is_max(a, m + 1, j);
                }
                assert forall|i: int| 0 <= i < m && i != 0 implies #[trigger] heap_at(b, i, m) by {
                    assert(heap_at(a, i, m + 1));
                }
                assert forall|i: int, j: int| 0 <= i < m <= j < n implies b[i] <= b[j] by {
                    if j > m {
                        assert(a[0] <= a[j]);
                        assert(a[m] <= a[j]);
                    }
                }
                assert forall|i: int, j: int| m <= i <= j < n implies b[i] <= b[j] by {
                    if i == m && j > m {
                        assert(a[0] <= a[j]);
                    }
                }
                if m == 0 {
                    assert forall|i: int, j: int| 0 <= i <= j < n implies b[i] <= b[j] by {
                        if i == 0 && j > 0 {
                            assert(a[0] <= a[j]);
                        }
                    }
                }
            }
        }
    }

    /// Reports whether the heap has shrunk to nothing.
    pub fn modify_state(&mut self, _array: &[usize]) -> (r: bool)
        ensures
            *final(self) == *old(self),
            r == (old(self).end_index() == 0),
    {
        self.index == 0
    }
}

impl Sorter for HeapSort {
    closed spec fn is_fresh(&self) -> bool {
        *self == HeapSort {
            index: NO_INDEX,
            special: (NO_INDEX, NO_INDEX),
            swapped: false,
            root: NO_INDEX,
            start: NO_INDEX,
            reason: Reasons::Comparing,
        }
    }

    closed spec fn inv(&self, a: Seq<usize>) -> bool {
        &&& pair_fits(self.special, a.len())
        &&& a.len() >= 2 ==> {
            ||| self.start == NO_INDEX && self.index == NO_INDEX && !self.swapped
            ||| self.start != NO_INDEX && self.building(a)
            ||| self.sifting(a)
        }
    }

    closed spec fn contents(&self, a: Seq<usize>) -> Multiset<usize> {
        a.to_multiset()
    }

    closed spec fn special_spec(&self) -> (usize, usize) {
        self.special
    }

    open spec fn always_ends() -> bool {
        true
    }

    closed spec fn reason_spec(&self) -> Reasons {
        self.reason
    }

    proof fn lemma_fresh(&self, a: Seq<usize>) {
    }

    fn new() -> (r: Self) {
        HeapSort {
            index: NO_INDEX,
            special: (NO_INDEX, NO_INDEX),
            swapped: false,
            root: NO_INDEX,
            start: NO_INDEX,
            reason: Reasons::Comparing,
        }
    }

    fn special(&self) -> (r: (usize, usize)) {
        self.special
    }

    fn reason(&self) -> (r: Reasons) {
        self.reason
    }

    fn step(&mut self, array: &mut Vec<usize>) -> (done: bool)
        ensures
            done ==> sorted(final(array)@),
            done ==> final(array)@ == old(array)@,
            done && old(array)@.len() >= 2 ==> final(self).special_spec() == (0usize, 0usize),
            !done ==> lex_lt(final(self).rank(final(array)@.len()), old(self).rank(old(array)@.len())),
            at_most_one_swap(old(array)@, final(array)@),
            !done ==> final(self).special_spec() != (NO_INDEX, NO_INDEX) && final(array)@ == swapped(
                old(array)@,
                final(self).special_spec().0 as int,
                final(self).special_spec().1 as int,
            ),
            !done ==> final(self).reason_spec() == (if final(self).special_spec().1 == 0 {
                Reasons::Switching
            } else {
                Reasons::Comparing
            }),
    {
        let len = array.len();
        if len <= 1 {
            return true;
        }
        // The start of the heap construction.
        if self.start == NO_INDEX {
            self.start = len / 2;
            self.root = self.start;
        }
        if self.index == NO_INDEX {
            // Sifts that need no exchange are taken within this step, so that
            // each step shows an exchange.
            loop
                invariant
                    self.building(array@),
                    self.start != NO_INDEX,
                    array@ == old(array)@,
                    len == array@.len(),
                    pair_fits(self.special, array@.len()),
                    lex_lt(self.rank(len as nat), old(self).rank(len as nat)) || (
                        self.rank(len as nat).1 == old(self).rank(len as nat).1 && self.root
                            == old(self).root && self.start == old(self).start),
                    self.rank(len as nat).0 == old(self).rank(len as nat).0,
                ensures
                    self.start == 0,
                    is_heap(array@, 0, len as int),
                decreases self.start,
            {
                if !self.sift_down(array, len - 1) {
                    assert(self.special.0 < len && self.special.1 < len);
                    return false;
                }
                if self.start == 0 {
                    break;
                }
                self.start = self.start - 1;
                self.root = self.start;
            }
            // The heap is built: the first exchange of the sorting phase is
            // made in this step.
            self.index = len - 1;
            self.switch(array);
            assert(self.special.0 < len && self.special.1 < len);
            return false;
        }
        let ghost a = array@;
        self.switch(array);
        proof {
            assert(self.special.0 < len && self.special.1 < len);
            if self.index == 0 {
                assert(swapped(a, 0, 0) =~= a);
            }
        }
        self.modify_state(array.as_slice())
    }

    fn run(&mut self, array: &mut Vec<usize>)
        ensures
            sorted(final(array)@),
    {
        let ghost m = array@.to_multiset();
        loop
            invariant_except_break
                self.inv(array@),
            invariant
                array@.to_multiset() == m,
            ensures
                sorted(array@),
            decreases self.rank(array@.len()).0, self.rank(array@.len()).1, self.rank(array@.len()).2,
        {
            if self.step(array) {
                break;
            }
        }
        self.reset_state();
    }

    fn reset_state(&mut self) {
        *self = HeapSort::new();
    }
}

} // verus!
