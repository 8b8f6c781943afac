use vstd::prelude::*;
use vstd::multiset::Multiset;
use crate::sorter::{
    at_most_one_swap, lex_lt, pair_fits, sorted, swap_elems, swapped, unchanged_or_swapped_at,
    Reasons, Sorter, NO_INDEX,
};

verus! {

/// Selection sort: `y` scans the unsorted part `[x, len)` for its minimum,
/// which is then exchanged into position `x`.
pub struct SelectionSort {
    x: usize,
    y: usize,
    min: usize,
    needs_switch: bool,
    special: (usize, usize),
    reason: Reasons,
}

impl SelectionSort {
    /// Elements left to place, positions left to scan, and whether a swap
    /// is pending.
    pub closed spec fn rank(&self, n: nat) -> (nat, nat, nat) {
        ((n - self.x) as nat, (n - self.y) as nat, if self.needs_switch { 1 } else { 0 })
    }

    pub closed spec fn switch_pending(&self) -> bool {
        self.needs_switch
    }

    /// The front `x` of the unsorted part.
    pub closed spec fn front(&self) -> usize {
        self.x
    }

    /// The next position `y` to scan.
    pub closed spec fn scan(&self) -> usize {
        self.y
    }

    /// Where the smallest element scanned so far stands.
    pub closed spec fn min_index(&self) -> usize {
        self.min
    }

    /// What a comparison step does when no swap is pending: it is done when
    /// the length is at most one or only one element is left unsorted;
    /// otherwise it reports `(y, min)`, keeps the smaller of the two as the
    /// minimum, moves `y` on, and makes the swap pending once `y` reaches
    /// the end.
    pub open spec fn compared(&self, next: &Self, a: Seq<usize>, done: bool) -> bool {
        let n = a.len() as int;
        &&& done == (n <= 1 || self.front() == n - 1)
        &&& done ==> *next == *self
        &&& !done ==> {
            &&& next.special_spec() == (self.scan(), self.min_index())
            &&& next.reason_spec() == Reasons::Comparing
            &&& next.min_index() == if a[self.scan() as int] < a[self.min_index() as int] {
                self.scan()
            } else {
                self.min_index()
            }
            &&& next.scan() == self.scan() + 1
            &&& next.front() == self.front()
            &&& next.switch_pending() == (next.scan() == n)
        }
    }

    /// What a swap step does: it exchanges the front of the unsorted part
    /// with the smallest element of that part, reports that pair with
    /// `Switching`, and moves the front on.
    pub open spec fn switched_pair(&self, next: &Self, a: Seq<usize>, b: Seq<usize>) -> bool {
        let p = next.special_spec();
        &&& p == (self.front(), self.min_index())
        &&& p.0 <= p.1 < a.len()
        &&& forall|k: int| p.0 <= k < a.len() ==> a[p.1 as int] <= #[trigger] a[k]
        &&& b == swapped(a, p.0 as int, p.1 as int)
        &&& next.reason_spec() == Reasons::Switching
        &&& next.front() == self.front() + 1
        &&& next.min_index() == next.front()
        &&& next.scan() == next.front() + 1
        &&& !next.switch_pending()
    }

    /// Compares the scanned element with the minimum found so far; returns
    /// true when the sequence is sorted.
    pub fn modify_state(&mut self, array: &[usize]) -> (done: bool)
        requires
            old(self).inv(array@),
            !old(self).switch_pending(),
        ensures
            done ==> sorted(array@) && *final(self) == *old(self),
            old(self).compared(&*final(self), array@, done),
            !done ==> final(self).inv(array@),
            !done ==> lex_lt(final(self).rank(array@.len()), old(self).rank(array@.len())),
    {
        let len = array.len();
        if len <= 1 || self.x == len - 1 {
            return true;
        }
        self.special = (self.y, self.min);
        self.reason = Reasons::Comparing;
        if array[self.y] < array[self.min] {
            self.min = self.y;
        }
        self.y = self.y + 1;
        if self.y == len {
            self.needs_switch = true;
        }
        false
    }

    /// Moves the minimum of the unsorted part to its front.
    pub fn switch(&mut self, array: &mut Vec<usize>)
        requires
            old(self).inv(old(array)@),
            old(self).switch_pending(),
        ensures
            old(self).switched_pair(&*final(self), old(array)@, final(array)@),
            final(array)@.to_multiset() == old(array)@.to_multiset(),
            at_most_one_swap(old(array)@, final(array)@),
            final(self).inv(final(array)@),
            lex_lt(final(self).rank(final(array)@.len()), old(self).rank(old(array)@.len())),
    {
        let ghost a = array@;
        self.special = (self.x, self.min);
        swap_elems(array, self.x, self.min);
        self.reason = Reasons::Switching;
        proof {
            let b = array@;
            let n = a.len();
            let x = self.x as int;
            assert forall|i: int, j: int| 0 <= i < x + 1 && i <= j < n implies b[i] <= b[j] by {
                if i == x {
                    if j == self.min {
                        assert(a[self.min as int] <= a[x]);
                    }
                } else if j == self.min {
                    assert(a[i] <= a[x]);
                }
            }
        }
        self.x = self.x + 1;
        self.min = self.x;
        self.y = self.x + 1;
        self.needs_switch = false;
    }
}

impl Sorter for SelectionSort {
    closed spec fn is_fresh(&self) -> bool {
        *self == SelectionSort {
            x: 0,
            y: 1,
            min: 0,
            needs_switch: false,
            special: (NO_INDEX, NO_INDEX),
            reason: Reasons::Comparing,
        }
    }

    closed spec fn inv(&self, a: Seq<usize>) -> bool {
        let n = a.len();
        &&& pair_fits(self.special, n)
        &&& if n <= 1 {
            !self.needs_switch
        } else {
            &&& self.x < self.y <= n
            &&& self.x <= self.min < self.y
            &&& self.x <= n - 1
            &&& forall|i: int, j: int| 0 <= i < self.x && i <= j < n ==> a[i] <= a[j]
            &&& forall|k: int| self.x <= k < self.y ==> a[self.min as int] <= #[trigger] a[k]
            &&& self.needs_switch ==> self.y == n && self.x < n - 1
            &&& !self.needs_switch && self.x < n - 1 ==> self.y < n
        }
    }

    closed spec fn contents(&self, a: Seq<usize>) -> Multiset<usize> {
        a.to_multiset()
    }

    closed spec fn special_spec(&self) -> (usize, usize) {
        self.special
    }

    open spec fn always_ends() -> bool {
        true
    }

    closed spec fn reason_spec(&self) -> Reasons {
        self.reason
    }

    proof fn lemma_fresh(&self, a: Seq<usize>) {
    }

    fn new() -> (r: Self) {
        SelectionSort {
            x: 0,
            y: 1,
            min: 0,
            needs_switch: false,
            special: (NO_INDEX, NO_INDEX),
            reason: Reasons::Comparing,
        }
    }

    fn special(&self) -> (r: (usize, usize)) {
        self.special
    }

    fn reason(&self) -> (r: Reasons) {
        self.reason
    }

    fn step(&mut self, array: &mut Vec<usize>) -> (done: bool)
        ensures
            done ==> sorted(final(array)@),
            done ==> final(array)@ == old(array)@,
            !done ==> lex_lt(final(self).rank(final(array)@.len()), old(self).rank(old(array)@.len())),
            at_most_one_swap(old(array)@, final(array)@),
            unchanged_or_swapped_at(
                old(array)@,
                final(array)@,
                final(self).special_spec(),
                final(self).reason_spec(),
            ),
            old(self).switch_pending() ==> !done && old(self).switched_pair(
                &*final(self),
                old(array)@,
                final(array)@,
            ),
            !old(self).switch_pending() ==> final(array)@ == old(array)@ && old(self).compared(
                &*final(self),
                old(array)@,
                done,
            ),
    {
        if self.needs_switch {
            self.switch(array);
        } else {
            return self.modify_state(array.as_slice());
        }
        false
    }

    fn run(&mut self, array: &mut Vec<usize>)
        ensures
            sorted(final(array)@),
    {
        let ghost m = array@.to_multiset();
        loop
            invariant_except_break
                self.inv(array@),
            invariant
                array@.to_multiset() == m,
            ensures
                sorted(array@),
            decreases self.rank(array@.len()).0, self.rank(array@.len()).1, self.rank(array@.len()).2,
        {
            if self.step(array) {
                break;
            }
        }
        self.reset_state();
    }

    fn reset_state(&mut self) {
        *self = SelectionSort::new();
    }
}

} // verus!
