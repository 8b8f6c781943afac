use vstd::prelude::*;
use vstd::multiset::Multiset;
use crate::sorter::{
    at_most_one_swap, lex_lt, pair_fits, sorted, sorted_between, swap_elems, swapped,
    unchanged_or_swapped_at, Reasons, Sorter, NO_INDEX,
};

verus! {

/// Insertion sort: element `curr - 1` is sifted left through the sorted
/// prefix by comparing and exchanging the pair `(x, y) = (y - 1, y)`.
pub struct InsertionSort {
    x: usize,
    y: usize,
    curr: usize,
    needs_switch: bool,
    reason: Reasons,
    switched: bool,
}

impl InsertionSort {
    /// Where the element being sifted stands.
    pub closed spec fn hole(&self) -> int {
        if self.switched { self.x as int } else { self.y as int }
    }

    /// Elements left to insert, and how far the current one may still move.
    pub closed spec fn rank(&self, n: nat) -> (nat, nat, nat) {
        ((n - self.curr) as nat, (2 * self.y + if self.switched { 0int } else { 1 }) as nat, 0)
    }

    pub closed spec fn switch_pending(&self) -> bool {
        self.needs_switch
    }

    /// The pair `(x, y)` last compared.
    pub closed spec fn cursor(&self) -> (usize, usize) {
        (self.x, self.y)
    }

    /// One past the element being inserted (`curr`).
    pub closed spec fn current(&self) -> usize {
        self.curr
    }

    /// The last step exchanged the pair.
    pub closed spec fn just_switched(&self) -> bool {
        self.switched
    }

    /// What a comparison step does when no swap is pending. After a swap
    /// whose pair does not start at 0, it compares the pair one to the left;
    /// otherwise it compares `(curr - 1, curr)` and moves `curr` on, or is
    /// done once `curr` reached the length (or the length is at most one).
    /// A swap becomes pending exactly when the pair is out of order.
    pub open spec fn compared(&self, next: &Self, a: Seq<usize>, done: bool) -> bool {
        let n = a.len() as int;
        let sifting = self.just_switched() && self.cursor().1 > 1;
        &&& done == (n <= 1 || (self.current() >= n && !sifting))
        &&& done ==> *next == *self
        &&& !done ==> {
            &&& if sifting {
                next.cursor() == ((self.cursor().0 - 1) as usize, (self.cursor().1 - 1) as usize)
                    && next.current() == self.current()
            } else {
                next.cursor() == ((self.current() - 1) as usize, self.current())
                    && next.current() == self.current() + 1
            }
            &&& next.special_spec() == next.cursor()
            &&& next.reason_spec() == Reasons::Comparing
            &&& !next.just_switched()
            &&& next.switch_pending() == (a[next.cursor().1 as int] < a[next.cursor().0 as int])
        }
    }

    /// What a swap step does: it exchanges the reported pair, which is an
    /// adjacent pair out of order, and shows `Switching`.
    pub open spec fn switched_pair(&self, next: &Self, a: Seq<usize>, b: Seq<usize>) -> bool {
        let p = self.special_spec();
        &&& p.1 == p.0 + 1
        &&& a[p.0 as int] > a[p.1 as int]
        &&& b == swapped(a, p.0 as int, p.1 as int)
        &&& next.special_spec() == p
        &&& next.reason_spec() == Reasons::Switching
        &&& next.cursor() == self.cursor()
        &&& next.current() == self.current()
        &&& next.just_switched()
        &&& !next.switch_pending()
    }

    /// Compares the next pair: the sifted element with its left neighbour,
    /// or, once it has settled, the next element with the sorted prefix.
    /// Returns true when the sequence is sorted.
    pub fn modify_state(&mut self, array: &[usize]) -> (done: bool)
        requires
            old(self).inv(array@),
            !old(self).switch_pending(),
        ensures
            done ==> sorted(array@) && *final(self) == *old(self),
            old(self).compared(&*final(self), array@, done),
            !done ==> final(self).inv(array@),
            !done ==> lex_lt(final(self).rank(array@.len()), old(self).rank(array@.len())),
    {
        let len = array.len();
        let sifting = self.switched && self.y > 1;
        if len <= 1 || (self.curr >= len && !sifting) {
            proof {
                if len > 1 {
                    self.lemma_prefix_sorted(array@);
                }
            }
            return true;
        }
        if !sifting {
            proof {
                if self.curr >= 2 {
                    self.lemma_prefix_sorted(array@);
                }
            }
        }
        self.reason = Reasons::Comparing;
        if sifting {
            self.x = self.x - 1;
            self.y = self.y - 1;
        } else {
            self.x = self.curr - 1;
            self.y = self.curr;
            self.curr = self.curr + 1;
        }
        self.switched = false;
        self.needs_switch = self.y < len && array[self.y] < array[self.x] && self.y > 0;
        false
    }

    /// Once the sifted element has settled, the whole prefix is sorted.
    proof fn lemma_prefix_sorted(&self, a: Seq<usize>)
        requires
            self.inv(a),
            self.curr >= 2,
            !self.needs_switch,
            !(self.switched && self.y > 1),
        ensures
            sorted_between(a, 0, self.curr as int),
    {
        let h = self.hole();
        assert forall|i: int, j: int| 0 <= i <= j < self.curr implies a[i] <= a[j] by {
            if i < h && j > h {
            } else if i == h && j > h {
            } else if i < h && j == h {
                assert(a[i] <= a[h - 1]);
            }
        }
    }

    /// Exchanges the sifted element with its left neighbour.
    pub fn switch(&mut self, array: &mut Vec<usize>)
        requires
            old(self).inv(old(array)@),
            old(self).switch_pending(),
        ensures
            old(self).switched_pair(&*final(self), old(array)@, final(array)@),
            final(array)@.to_multiset() == old(array)@.to_multiset(),
            at_most_one_swap(old(array)@, final(array)@),
            final(self).inv(final(array)@),
            lex_lt(final(self).rank(final(array)@.len()), old(self).rank(old(array)@.len())),
    {
        let ghost a = array@;
        swap_elems(array, self.x, self.y);
        self.reason = Reasons::Switching;
        self.needs_switch = false;
        self.switched = true;
        proof {
            let b = array@;
            let x = self.x as int;
            let y = self.y as int;
            let c = self.curr as int;
            assert(b[x] == a[y] && b[y] == a[x]);
            assert(self.curr != 1);
            assert forall|i: int, j: int| x + 1 <= i <= j < c implies b[i] <= b[j] by {
                if i == y && j > y {
                    assert(a[x] <= a[j]);
                }
            }
            assert forall|i: int, j: int| 0 <= i < x && x < j < c implies b[i] <= b[j] by {
                if j == y {
                    assert(a[i] <= a[x]);
                }
            }
            assert forall|j: int| x < j < c implies b[x] < #[trigger] b[j] by {
                if j == y {
                } else {
                    assert(a[y] < a[j]);
                }
            }
        }
    }
}

impl Sorter for InsertionSort {
    closed spec fn is_fresh(&self) -> bool {
        *self == InsertionSort {
            x: 0,
            y: 1,
            curr: 1,
            needs_switch: false,
            reason: Reasons::Comparing,
            switched: false,
        }
    }

    closed spec fn inv(&self, a: Seq<usize>) -> bool {
        let n = a.len();
        let h = self.hole();
        if self.curr == 1 || n <= 1 {
            self.curr == 1 && self.x == 0 && self.y == 1 && !self.switched && !self.needs_switch
        } else {
            &&& 2 <= self.curr <= n
            &&& self.y == self.x + 1
            &&& 1 <= self.y <= self.curr - 1
            &&& !(self.needs_switch && self.switched)
            &&& sorted_between(a, 0, h)
            &&& sorted_between(a, h + 1, self.curr as int)
            &&& forall|i: int, j: int| 0 <= i < h && h < j < self.curr ==> a[i] <= a[j]
            &&& forall|j: int| h < j < self.curr ==> a[h] < #[trigger] a[j]
            &&& self.needs_switch ==> a[self.y as int] < a[self.x as int]
            &&& !self.needs_switch && !self.switched ==> a[self.x as int] <= a[self.y as int]
        }
    }

    closed spec fn contents(&self, a: Seq<usize>) -> Multiset<usize> {
        a.to_multiset()
    }

    closed spec fn special_spec(&self) -> (usize, usize) {
        if self.curr != 1 {
            (self.x, self.y)
        } else {
            (NO_INDEX, NO_INDEX)
        }
    }

    open spec fn always_ends() -> bool {
        true
    }

    closed spec fn reason_spec(&self) -> Reasons {
        self.reason
    }

    proof fn lemma_fresh(&self, a: Seq<usize>) {
    }

    fn new() -> (r: Self) {
        InsertionSort {
            x: 0,
            y: 1,
            curr: 1,
            needs_switch: false,
            reason: Reasons::Comparing,
            switched: false,
        }
    }

    fn special(&self) -> (r: (usize, usize)) {
        if self.curr != 1 {
            return (self.x, self.y);
        }
        (NO_INDEX, NO_INDEX)
    }

    fn reason(&self) -> (r: Reasons) {
        self.reason
    }

    fn step(&mut self, array: &mut Vec<usize>) -> (done: bool)
        ensures
            done ==> sorted(final(array)@),
            done ==> final(array)@ == old(array)@,
            !done ==> lex_lt(final(self).rank(final(array)@.len()), old(self).rank(old(array)@.len())),
            at_most_one_swap(old(array)@, final(array)@),
            unchanged_or_swapped_at(
                old(array)@,
                final(array)@,
                final(self).special_spec(),
                final(self).reason_spec(),
            ),
            old(self).switch_pending() ==> !done && old(self).switched_pair(
                &*final(self),
                old(array)@,
                final(array)@,
            ),
            !old(self).switch_pending() ==> final(array)@ == old(array)@ && old(self).compared(
                &*final(self),
                old(array)@,
                done,
            ),
    {
        if self.needs_switch {
            self.switch(array)
        } else {
            return self.modify_state(array.as_slice());
        }
        false
    }

    fn run(&mut self, array: &mut Vec<usize>)
        ensures
            sorted(final(array)@),
    {
        let ghost m = array@.to_multiset();
        loop
            invariant_except_break
                self.inv(array@),
            invariant
                array@.to_multiset() == m,
            ensures
                sorted(array@),
            decreases self.rank(array@.len()).0, self.rank(array@.len()).1, self.rank(array@.len()).2,
        {
            if self.step(array) {
                break;
            }
        }
        self.reset_state();
    }

    fn reset_state(&mut self) {
        *self = InsertionSort::new();
    }
}

} // verus!
